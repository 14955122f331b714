//! Decisions around the local Python that runs RocketPy: which interpreters
//! are tried, how their replies are read, and what the user is told.

use vstd::prelude::*;
use crate::paths::{joined_path, path_join};
use crate::text::{
    append_chars, chars_of, lines, lines_chars, starts_with, str_views, string_of, trim,
    trim_chars, views,
};

verus! {

/// Default atmosphere model of a RocketPy environment.
pub fn standard_atmosphere() -> (s: String)
    ensures
        s@ == "standard_atmosphere"@,
{
    String::from_str("standard_atmosphere")
}

/// Default nose-cone kind of a RocketPy rocket.
pub fn von_karman() -> (s: String)
    ensures
        s@ == "von karman"@,
{
    String::from_str("von karman")
}

/// A way to start Python: the program, arguments put before the script's,
/// and the name shown to the user.
#[derive(Debug, Clone)]
pub struct PyInterp {
    pub bin: String,
    pub prefix: Vec<String>,
    pub label: String,
}

pub type InterpView = (Seq<char>, Seq<Seq<char>>, Seq<char>);

pub open spec fn interp_view(p: PyInterp) -> InterpView {
    (p.bin@, str_views(p.prefix@), p.label@)
}

pub open spec fn interp_views(ps: Seq<PyInterp>) -> Seq<InterpView> {
    Seq::new(ps.len(), |i: int| interp_view(ps[i]))
}

/// Whether RocketPy can be used, and with which Python, or why not.
#[derive(Debug, Clone)]
pub struct RocketPyStatus {
    pub available: bool,
    pub version: Option<String>,
    pub python: Option<String>,
    pub error: Option<String>,
}

/// Status reported for the outcome of finding a Python with RocketPy
/// (the interpreter and RocketPy's version, or the reason it failed).
pub fn check_rocketpy(ensured: Result<(PyInterp, String), String>) -> (s: RocketPyStatus)
    ensures
        match ensured {
            Ok((interp, version)) => s.available && (s.version matches Some(v) && v@ == version@)
                && (s.python matches Some(p) && p@ == interp.label@) && s.error is None,
            Err(e) => !s.available && s.version is None && s.python is None && (s.error matches Some(
                m,
            ) && m@ == e@),
        },
{
    match ensured {
        Ok((interp, version)) => RocketPyStatus {
            available: true,
            version: Some(version),
            python: Some(interp.label),
            error: None,
        },
        Err(err) => RocketPyStatus { available: false, version: None, python: None, error: Some(err) },
    }
}

fn plain_interp(name: &str) -> (p: PyInterp)
    ensures
        interp_view(p) == (name@, Seq::<Seq<char>>::empty(), name@),
{
    let prefix: Vec<String> = Vec::new();
    assert(str_views(prefix@) =~= Seq::<Seq<char>>::empty());
    PyInterp { bin: String::from_str(name), prefix, label: String::from_str(name) }
}

/// Interpreters tried, in order, when no project environment works: the
/// one the user named (if any), then the platform's usual commands.
pub open spec fn system_interp_views(env_python: Option<Seq<char>>, windows: bool) -> Seq<InterpView> {
    let named: Seq<InterpView> = match env_python {
        Some(p) => seq![(p, Seq::<Seq<char>>::empty(), p)],
        None => Seq::empty(),
    };
    let platform: Seq<InterpView> = if windows {
        seq![
            ("py"@, seq!["-3"@], "py -3"@),
            ("python"@, Seq::<Seq<char>>::empty(), "python"@),
        ]
    } else {
        seq![("python3"@, Seq::<Seq<char>>::empty(), "python3"@)]
    };
    named + platform + seq![
        ("python3"@, Seq::<Seq<char>>::empty(), "python3"@),
        ("python"@, Seq::<Seq<char>>::empty(), "python"@),
    ]
}

/// The interpreters to try; `env_python` is the interpreter the user named
/// in the environment, `windows` whether this is Windows.
pub fn system_interps(env_python: Option<String>, windows: bool) -> (r: Vec<PyInterp>)
    ensures
        interp_views(r@) == system_interp_views(opt_text(env_python), windows),
{
    let mut out: Vec<PyInterp> = Vec::new();
    let ghost env_view: Option<Seq<char>> = opt_text(env_python);
    let ghost named: Seq<InterpView> = match env_view {
        Some(p) => seq![(p, Seq::<Seq<char>>::empty(), p)],
        None => Seq::empty(),
    };
    match env_python {
        Some(p) => {
            let prefix: Vec<String> = Vec::new();
            assert(str_views(prefix@) =~= Seq::<Seq<char>>::empty());
            out.push(PyInterp { bin: p.clone(), prefix, label: p });
        },
        None => {},
    }
    assert(interp_views(out@) =~= named);
    let ghost after_named = interp_views(out@);
    if windows {
        let mut prefix: Vec<String> = Vec::new();
        prefix.push(String::from_str("-3"));
        assert(str_views(prefix@) =~= seq!["-3"@]);
        out.push(PyInterp { bin: String::from_str("py"), prefix, label: String::from_str("py -3") });
        out.push(plain_interp("python"));
    } else {
        out.push(plain_interp("python3"));
    }
    out.push(plain_interp("python3"));
    out.push(plain_interp("python"));
    proof {
        let platform: Seq<InterpView> = if windows {
            seq![
                ("py"@, seq!["-3"@], "py -3"@),
                ("python"@, Seq::<Seq<char>>::empty(), "python"@),
            ]
        } else {
            seq![("python3"@, Seq::<Seq<char>>::empty(), "python3"@)]
        };
        assert(interp_views(out@) =~= named + platform + seq![
            ("python3"@, Seq::<Seq<char>>::empty(), "python3"@),
            ("python"@, Seq::<Seq<char>>::empty(), "python"@),
        ]);
    }
    out
}

// ---------------------------------------------------------------------
// Reading what Python printed
// ---------------------------------------------------------------------

/// Last line whose trimmed text starts with `{`.
pub open spec fn last_json_line(ls: Seq<Seq<char>>) -> Option<Seq<char>>
    decreases ls.len(),
{
    if ls.len() == 0 {
        None
    } else if starts_with(trim(ls.last()), seq!['{']) {
        Some(ls.last())
    } else {
        last_json_line(ls.drop_last())
    }
}

/// Last line that is not blank.
pub open spec fn last_filled_line(ls: Seq<Seq<char>>) -> Option<Seq<char>>
    decreases ls.len(),
{
    if ls.len() == 0 {
        None
    } else if trim(ls.last()).len() > 0 {
        Some(ls.last())
    } else {
        last_filled_line(ls.drop_last())
    }
}

/// Last line, if any.
pub open spec fn last_line(s: Seq<char>) -> Option<Seq<char>> {
    if lines(s).len() == 0 {
        None
    } else {
        Some(lines(s).last())
    }
}

/// The line of a reply that holds its JSON: the last line starting with `{`
/// once trimmed, else the whole output trimmed.
pub open spec fn reply_line(stdout: Seq<char>) -> Seq<char> {
    match last_json_line(lines(stdout)) {
        Some(l) => l,
        None => trim(stdout),
    }
}

fn last_json_index(ls: &Vec<Vec<char>>) -> (r: Option<usize>)
    ensures
        match r {
            Some(i) => i < ls@.len() && last_json_line(views(ls@)) == Some(ls@[i as int]@),
            None => last_json_line(views(ls@)) is None,
        },
{
    let ghost vs = views(ls@);
    let mut n: usize = ls.len();
    assert(vs.take(n as int) =~= vs);
    while n > 0
        invariant
            n <= ls@.len(),
            vs == views(ls@),
            last_json_line(vs) == last_json_line(vs.take(n as int)),
        decreases n,
    {
        let t = trim_chars(&ls[n - 1]);
        let brace = ['{'];
        assert(brace@ == seq!['{']);
        assert(vs.take(n as int).last() == ls@[n - 1]@);
        if crate::text::starts_with_chars(&t, &brace) {
            return Some(n - 1);
        }
        assert(vs.take(n as int).drop_last() =~= vs.take(n - 1));
        n -= 1;
    }
    assert(vs.take(0) =~= Seq::<Seq<char>>::empty());
    None
}

/// The line of a Python reply that holds its JSON.
pub fn json_reply_line(stdout: &str) -> (r: String)
    ensures
        r@ == reply_line(stdout@),
{
    let cs = chars_of(stdout);
    let ls = lines_chars(&cs);
    match last_json_index(&ls) {
        Some(i) => string_of(&ls[i]),
        None => string_of(&trim_chars(&cs)),
    }
}

fn last_filled_index(ls: &Vec<Vec<char>>) -> (r: Option<usize>)
    ensures
        match r {
            Some(i) => i < ls@.len() && last_filled_line(views(ls@)) == Some(ls@[i as int]@),
            None => last_filled_line(views(ls@)) is None,
        },
{
    let ghost vs = views(ls@);
    let mut n: usize = ls.len();
    assert(vs.take(n as int) =~= vs);
    while n > 0
        invariant
            n <= ls@.len(),
            vs == views(ls@),
            last_filled_line(vs) == last_filled_line(vs.take(n as int)),
        decreases n,
    {
        let t = trim_chars(&ls[n - 1]);
        assert(vs.take(n as int).last() == ls@[n - 1]@);
        if t.len() > 0 {
            return Some(n - 1);
        }
        assert(vs.take(n as int).drop_last() =~= vs.take(n - 1));
        n -= 1;
    }
    assert(vs.take(0) =~= Seq::<Seq<char>>::empty());
    None
}

fn last_line_of(s: &str) -> (r: Option<String>)
    ensures
        match r {
            Some(l) => last_line(s@) == Some(l@),
            None => last_line(s@) is None,
        },
{
    let ls = lines_chars(&chars_of(s));
    if ls.len() == 0 {
        None
    } else {
        Some(string_of(&ls[ls.len() - 1]))
    }
}

/// What the RocketPy probe script answered, once its JSON line was read.
#[derive(Debug, Clone)]
pub struct ProbeReply {
    pub ok: bool,
    pub version: Option<String>,
    pub error: Option<String>,
}

pub open spec fn opt_text(o: Option<String>) -> Option<Seq<char>> {
    match o {
        Some(s) => Some(s@),
        None => None,
    }
}

pub open spec fn or_text(o: Option<Seq<char>>, d: Seq<char>) -> Seq<char> {
    match o {
        Some(s) => s,
        None => d,
    }
}

/// Outcome of a probe: the version when RocketPy imported ("unknown" if
/// not given), its error otherwise; when the reply was not JSON
/// (`reply` is `None`), the last line of standard error.
pub open spec fn probe_outcome(reply: Option<ProbeReply>, stderr: Seq<char>) -> Result<Seq<char>, Seq<char>> {
    match reply {
        Some(p) => if p.ok {
            Ok(or_text(opt_text(p.version), "unknown"@))
        } else {
            Err(or_text(opt_text(p.error), "rocketpy is not installed"@))
        },
        None => Err(or_text(last_line(stderr), "could not import rocketpy"@)),
    }
}

pub open spec fn text_result(r: Result<String, String>) -> Result<Seq<char>, Seq<char>> {
    match r {
        Ok(s) => Ok(s@),
        Err(e) => Err(e@),
    }
}

/// Reads a probe's reply (`None` when its JSON line did not parse).
pub fn parse_probe(reply: Option<ProbeReply>, stderr: &str) -> (r: Result<String, String>)
    ensures
        text_result(r) == probe_outcome(reply, stderr@),
{
    match reply {
        Some(p) => {
            if p.ok {
                match p.version {
                    Some(v) => Ok(v),
                    None => Ok(String::from_str("unknown")),
                }
            } else {
                match p.error {
                    Some(e) => Err(e),
                    None => Err(String::from_str("rocketpy is not installed")),
                }
            }
        },
        None => match last_line_of(stderr) {
            Some(l) => Err(l),
            None => Err(String::from_str("could not import rocketpy")),
        },
    }
}

// ---------------------------------------------------------------------
// Finding a working system Python
// ---------------------------------------------------------------------

/// What running a Python command gave: its output and exit code, or why it
/// could not be started.
#[derive(Debug, Clone)]
pub enum SpawnResult {
    Exited { stdout: String, stderr: String, code: i32 },
    Failed(String),
}

/// Verdict on one interpreter after `print(1)`: `None` when it works (exit
/// code 0 and a `1` printed), else the error remembered from it.
pub open spec fn spawn_verdict(outcome: SpawnResult, last: Seq<char>) -> Option<Seq<char>> {
    match outcome {
        SpawnResult::Exited { stdout, stderr, code } => if code == 0 && stdout@.contains('1') {
            None
        } else {
            Some(or_text(last_line(stderr@), last))
        },
        SpawnResult::Failed(e) => Some(e@),
    }
}

/// Checks one interpreter's `print(1)` run; `last` is the error remembered
/// so far.
pub fn interp_check(outcome: &SpawnResult, last: &str) -> (r: Option<String>)
    ensures
        opt_text(r) == spawn_verdict(*outcome, last@),
{
    match outcome {
        SpawnResult::Exited { stdout, stderr, code } => {
            let out = chars_of(stdout.as_str());
            if *code == 0 && crate::text::contains_char(&out, '1') {
                None
            } else {
                match last_line_of(stderr.as_str()) {
                    Some(l) => Some(l),
                    None => Some(String::from_str(last)),
                }
            }
        },
        SpawnResult::Failed(e) => Some(e.clone()),
    }
}

/// Error when no system Python works, built on the last error seen.
pub open spec fn no_python_message(last: Seq<char>) -> Seq<char> {
    last + ". Install Python 3, then reopen the RocketPy builder."@
}

/// The error remembered before any interpreter was tried.
pub fn no_interpreter_found() -> (s: String)
    ensures
        s@ == "no Python interpreter found"@,
{
    String::from_str("no Python interpreter found")
}

/// The error reported when no system Python works.
pub fn no_python_error(last: &str) -> (r: String)
    ensures
        r@ == no_python_message(last@),
{
    let mut v = chars_of(last);
    append_chars(&mut v, &chars_of(". Install Python 3, then reopen the RocketPy builder."));
    string_of(&v)
}

// ---------------------------------------------------------------------
// Installing RocketPy
// ---------------------------------------------------------------------

/// Arguments of the pip run: install from the requirements file when there
/// is one, else the `rocketpy` package.
pub open spec fn pip_arg_views(requirements: Option<Seq<char>>) -> Seq<Seq<char>> {
    seq!["-m"@, "pip"@, "install"@, "--disable-pip-version-check"@, "--upgrade"@] + match requirements {
        Some(r) => seq!["-r"@, r],
        None => seq!["rocketpy"@],
    }
}

/// Arguments for pip; `requirements` is the requirements file, when it
/// exists.
pub fn pip_args(requirements: Option<&str>) -> (r: Vec<String>)
    ensures
        str_views(r@) == pip_arg_views(
            match requirements {
                Some(s) => Some(s@),
                None => None,
            },
        ),
{
    let mut out: Vec<String> = Vec::new();
    out.push(String::from_str("-m"));
    out.push(String::from_str("pip"));
    out.push(String::from_str("install"));
    out.push(String::from_str("--disable-pip-version-check"));
    out.push(String::from_str("--upgrade"));
    match requirements {
        Some(path) => {
            out.push(String::from_str("-r"));
            out.push(String::from_str(path));
        },
        None => {
            out.push(String::from_str("rocketpy"));
        },
    }
    assert(str_views(out@) =~= pip_arg_views(
        match requirements {
            Some(s) => Some(s@),
            None => None,
        },
    ));
    out
}

/// Result of a pip run: success on exit code 0; otherwise an error with
/// the last non-blank line of its output (standard output before standard
/// error), or "pip failed".
pub open spec fn pip_result(stdout: Seq<char>, stderr: Seq<char>, code: i32) -> Result<(), Seq<char>> {
    if code == 0 {
        Ok(())
    } else {
        Err(
            "pip install rocketpy failed: "@ + or_text(
                last_filled_line(lines(stderr) + lines(stdout)),
                "pip failed"@,
            ),
        )
    }
}

/// Reads a pip run.
pub fn pip_outcome(stdout: &str, stderr: &str, code: i32) -> (r: Result<(), String>)
    ensures
        match r {
            Ok(()) => pip_result(stdout@, stderr@, code) is Ok,
            Err(e) => pip_result(stdout@, stderr@, code) == Err::<(), Seq<char>>(e@),
        },
{
    if code == 0 {
        return Ok(());
    }
    let mut all = lines_chars(&chars_of(stderr));
    let ghost first = views(all@);
    let more = lines_chars(&chars_of(stdout));
    let mut k: usize = 0;
    while k < more.len()
        invariant
            k <= more@.len(),
            views(all@) == first + views(more@).take(k as int),
        decreases more@.len() - k,
    {
        let ghost before = views(all@);
        all.push(more[k].clone());
        assert(views(all@) =~= before.push(more@[k as int]@));
        assert(views(more@).take(k + 1) =~= views(more@).take(k as int).push(more@[k as int]@));
        assert(first + views(more@).take(k + 1) =~= (first + views(more@).take(k as int)).push(
            more@[k as int]@,
        ));
        k += 1;
    }
    assert(views(more@).take(more@.len() as int) =~= views(more@));
    let mut msg = chars_of("pip install rocketpy failed: ");
    match last_filled_index(&all) {
        Some(i) => append_chars(&mut msg, &all[i]),
        None => append_chars(&mut msg, &chars_of("pip failed")),
    }
    Err(string_of(&msg))
}

/// Error when the project environment could not be created: the last line
/// of standard error, else of standard output, else "venv failed".
pub open spec fn venv_message(stdout: Seq<char>, stderr: Seq<char>) -> Seq<char> {
    "could not create Python venv: "@ + match last_line(stderr) {
        Some(l) => l,
        None => or_text(last_line(stdout), "venv failed"@),
    }
}

/// The error reported when creating the project environment failed.
pub fn venv_error(stdout: &str, stderr: &str) -> (r: String)
    ensures
        r@ == venv_message(stdout@, stderr@),
{
    let mut msg = chars_of("could not create Python venv: ");
    match last_line_of(stderr) {
        Some(l) => append_chars(&mut msg, &chars_of(l.as_str())),
        None => match last_line_of(stdout) {
            Some(l) => append_chars(&mut msg, &chars_of(l.as_str())),
            None => append_chars(&mut msg, &chars_of("venv failed")),
        },
    }
    string_of(&msg)
}

// ---------------------------------------------------------------------
// Where the backend and its environment live
// ---------------------------------------------------------------------

/// The project environment's folder inside the backend folder.
pub fn venv_dir(backend: &str) -> (r: String)
    ensures
        r@ == joined_path(backend@, ".venv"@),
{
    path_join(backend, ".venv")
}

/// The environment's Python: `Scripts/python.exe` on Windows, else
/// `bin/python`.
pub open spec fn venv_python_path(venv: Seq<char>, windows: bool) -> Seq<char> {
    if windows {
        joined_path(joined_path(venv, "Scripts"@), "python.exe"@)
    } else {
        joined_path(joined_path(venv, "bin"@), "python"@)
    }
}

pub fn venv_python(venv: &str, windows: bool) -> (r: String)
    ensures
        r@ == venv_python_path(venv@, windows),
{
    if windows {
        let d = path_join(venv, "Scripts");
        path_join(d.as_str(), "python.exe")
    } else {
        let d = path_join(venv, "bin");
        path_join(d.as_str(), "python")
    }
}

/// The environment's interpreter, when its Python file exists.
pub fn interp_from_venv(py: &str, exists: bool) -> (r: Option<PyInterp>)
    ensures
        match r {
            Some(p) => exists && interp_view(p) == (py@, Seq::<Seq<char>>::empty(), "venv ("@ + py@
                + ")"@),
            None => !exists,
        },
{
    if !exists {
        return None;
    }
    let mut label = chars_of("venv (");
    append_chars(&mut label, &chars_of(py));
    label.push(')');
    let prefix: Vec<String> = Vec::new();
    assert(str_views(prefix@) =~= Seq::<Seq<char>>::empty());
    proof {
        reveal_strlit(")");
    }
    assert(label@ =~= "venv ("@ + py@ + ")"@);
    Some(PyInterp { bin: String::from_str(py), prefix, label: string_of(&label) })
}

/// Folders that may hold the backend, in order: beside the sources, in or
/// above the working folder, and next to or above the executable.
pub open spec fn backend_candidate_views(
    manifest: Seq<char>,
    cwd: Option<Seq<char>>,
    exe_dir: Option<Seq<char>>,
) -> Seq<Seq<char>> {
    let b = "rocketpy_backend"@;
    let up = ".."@;
    seq![joined_path(joined_path(manifest, up), b)] + match cwd {
        Some(c) => seq![joined_path(c, b), joined_path(joined_path(c, up), b)],
        None => Seq::empty(),
    } + match exe_dir {
        Some(d) => seq![
            joined_path(d, b),
            joined_path(joined_path(d, up), b),
            joined_path(joined_path(joined_path(d, up), up), b),
        ],
        None => Seq::empty(),
    }
}

/// The candidate backend folders; `manifest` is the source folder, `cwd`
/// the working folder and `exe_dir` the executable's folder, when known.
pub fn backend_candidates(manifest: &str, cwd: Option<&str>, exe_dir: Option<&str>) -> (r: Vec<String>)
    ensures
        str_views(r@) == backend_candidate_views(
            manifest@,
            match cwd {
                Some(c) => Some(c@),
                None => None,
            },
            match exe_dir {
                Some(d) => Some(d@),
                None => None,
            },
        ),
{
    let mut out: Vec<String> = Vec::new();
    let m_up = path_join(manifest, "..");
    out.push(path_join(m_up.as_str(), "rocketpy_backend"));
    let ghost first = str_views(out@);
    match cwd {
        Some(c) => {
            out.push(path_join(c, "rocketpy_backend"));
            let c_up = path_join(c, "..");
            out.push(path_join(c_up.as_str(), "rocketpy_backend"));
        },
        None => {},
    }
    let ghost second = str_views(out@);
    match exe_dir {
        Some(d) => {
            out.push(path_join(d, "rocketpy_backend"));
            let d_up = path_join(d, "..");
            out.push(path_join(d_up.as_str(), "rocketpy_backend"));
            let d_up2 = path_join(d_up.as_str(), "..");
            out.push(path_join(d_up2.as_str(), "rocketpy_backend"));
        },
        None => {},
    }
    proof {
        let b = "rocketpy_backend"@;
        let up = ".."@;
        let cw: Seq<Seq<char>> = match cwd {
            Some(c) => seq![joined_path(c@, b), joined_path(joined_path(c@, up), b)],
            None => Seq::empty(),
        };
        let ex: Seq<Seq<char>> = match exe_dir {
            Some(d) => seq![
                joined_path(d@, b),
                joined_path(joined_path(d@, up), b),
                joined_path(joined_path(joined_path(d@, up), up), b),
            ],
            None => Seq::empty(),
        };
        assert(first =~= seq![joined_path(joined_path(manifest@, up), b)]);
        assert(second =~= first + cw);
        assert(str_views(out@) =~= second + ex);
    }
    out
}

/// Index of the first candidate that holds the backend (its script or its
/// environment exists there), given that test for each.
pub open spec fn first_present(present: Seq<bool>, i: int) -> Option<usize>
    decreases present.len() - i,
{
    if i < 0 || i >= present.len() {
        None
    } else if present[i] {
        Some(i as usize)
    } else {
        first_present(present, i + 1)
    }
}

/// The backend folder among the candidates, given which of them hold the
/// backend; the first candidate when none does.
pub fn choose_backend(candidates: &[String], present: &[bool]) -> (r: String)
    requires
        candidates@.len() == present@.len(),
        candidates@.len() > 0,
    ensures
        match first_present(present@, 0) {
            Some(i) => r@ == candidates@[i as int]@,
            None => r@ == candidates@[0]@,
        },
{
    let mut i: usize = 0;
    while i < present.len()
        invariant
            i <= present@.len() == candidates@.len(),
            first_present(present@, i as int) == first_present(present@, 0),
        decreases present@.len() - i,
    {
        if present[i] {
            return candidates[i].clone();
        }
        i += 1;
    }
    candidates[0].clone()
}

// ---------------------------------------------------------------------
// Finding a Python with RocketPy
// ---------------------------------------------------------------------

/// Where the search for a Python with RocketPy stands. The search asks, in
/// order: a remembered interpreter; the project environment (probe, then
/// install and probe again); each system interpreter; finally a new
/// project environment, which is probed.
#[derive(Debug, Clone, Copy, PartialEq, Eq, Structural)]
pub enum EnsureStage {
    CheckCache,
    CheckVenv,
    ProbeVenv,
    InstallVenv,
    ReprobeVenv,
    ProbeSystem(usize),
    Bootstrap,
    ProbeBootstrapped,
}

/// What the outside work of a stage reported.
#[derive(Debug)]
pub enum EnsureEvent {
    /// Whether an interpreter was remembered from before.
    Cache(bool),
    /// Whether the project environment's Python exists.
    VenvPresent(bool),
    /// RocketPy's version, or why the probe failed.
    Probe(Result<String, String>),
    /// Whether installing RocketPy succeeded.
    Install(bool),
    /// Whether creating the project environment succeeded, and why not.
    Bootstrap(Result<(), String>),
}

/// What to do next.
#[derive(Debug, Clone)]
pub enum EnsureOutcome {
    Continue(EnsureStage),
    UseCached,
    /// The interpreter of the current stage works, with this version.
    Found(String),
    Failed(String),
}

/// The event that answers a stage.
pub open spec fn answers(stage: EnsureStage, event: EnsureEvent) -> bool {
    match stage {
        EnsureStage::CheckCache => event is Cache,
        EnsureStage::CheckVenv => event is VenvPresent,
        EnsureStage::InstallVenv => event is Install,
        EnsureStage::Bootstrap => event is Bootstrap,
        _ => event is Probe,
    }
}

/// A stage that can occur with `n` system interpreters.
pub open spec fn stage_valid(stage: EnsureStage, n: usize) -> bool {
    match stage {
        EnsureStage::ProbeSystem(i) => i < n,
        _ => true,
    }
}

/// The system interpreter tried after `i` ones failed, or the bootstrap.
pub open spec fn system_from(i: usize, n: usize) -> EnsureStage {
    if i < n {
        EnsureStage::ProbeSystem(i)
    } else {
        EnsureStage::Bootstrap
    }
}

pub open spec fn outcome_view(o: EnsureOutcome) -> (int, EnsureStage, Seq<char>) {
    match o {
        EnsureOutcome::Continue(s) => (0, s, Seq::empty()),
        EnsureOutcome::UseCached => (1, EnsureStage::CheckCache, Seq::empty()),
        EnsureOutcome::Found(v) => (2, EnsureStage::CheckCache, v@),
        EnsureOutcome::Failed(e) => (3, EnsureStage::CheckCache, e@),
    }
}

pub open spec fn cont(s: EnsureStage) -> (int, EnsureStage, Seq<char>) {
    (0, s, Seq::empty())
}

/// The search's next step (see `EnsureStage`) when `stage` got `event` and
/// there are `n` system interpreters.
pub open spec fn ensure_next(stage: EnsureStage, n: usize, event: EnsureEvent) -> (int, EnsureStage, Seq<char>) {
    match event {
        EnsureEvent::Cache(hit) => if hit {
            (1, EnsureStage::CheckCache, Seq::empty())
        } else {
            cont(EnsureStage::CheckVenv)
        },
        EnsureEvent::VenvPresent(present) => if present {
            cont(EnsureStage::ProbeVenv)
        } else {
            cont(system_from(0, n))
        },
        EnsureEvent::Install(ok) => if ok {
            cont(EnsureStage::ReprobeVenv)
        } else {
            cont(system_from(0, n))
        },
        EnsureEvent::Bootstrap(r) => match r {
            Ok(()) => cont(EnsureStage::ProbeBootstrapped),
            Err(e) => (3, EnsureStage::CheckCache, e@),
        },
        EnsureEvent::Probe(r) => match r {
            Ok(v) => (2, EnsureStage::CheckCache, v@),
            Err(e) => match stage {
                EnsureStage::ProbeVenv => cont(EnsureStage::InstallVenv),
                EnsureStage::ProbeSystem(i) => cont(system_from((i + 1) as usize, n)),
                EnsureStage::ProbeBootstrapped => (3, EnsureStage::CheckCache, e@),
                _ => cont(system_from(0, n)),
            },
        },
    }
}

fn system_stage(i: usize, n: usize) -> (s: EnsureStage)
    ensures
        s == system_from(i, n),
{
    if i < n {
        EnsureStage::ProbeSystem(i)
    } else {
        EnsureStage::Bootstrap
    }
}

/// One step of the search: `stage` got `event`; `n_system` interpreters
/// are on the system list.
pub fn ensure_step(stage: EnsureStage, n_system: usize, event: EnsureEvent) -> (r: EnsureOutcome)
    requires
        answers(stage, event),
        stage_valid(stage, n_system),
    ensures
        outcome_view(r) == ensure_next(stage, n_system, event),
{
    match event {
        EnsureEvent::Cache(hit) => {
            if hit {
                EnsureOutcome::UseCached
            } else {
                EnsureOutcome::Continue(EnsureStage::CheckVenv)
            }
        },
        EnsureEvent::VenvPresent(present) => {
            if present {
                EnsureOutcome::Continue(EnsureStage::ProbeVenv)
            } else {
                EnsureOutcome::Continue(system_stage(0, n_system))
            }
        },
        EnsureEvent::Install(ok) => {
            if ok {
                EnsureOutcome::Continue(EnsureStage::ReprobeVenv)
            } else {
                EnsureOutcome::Continue(system_stage(0, n_system))
            }
        },
        EnsureEvent::Bootstrap(r) => match r {
            Ok(()) => EnsureOutcome::Continue(EnsureStage::ProbeBootstrapped),
            Err(e) => EnsureOutcome::Failed(e),
        },
        EnsureEvent::Probe(r) => match r {
            Ok(v) => EnsureOutcome::Found(v),
            Err(e) => match stage {
                EnsureStage::ProbeVenv => EnsureOutcome::Continue(EnsureStage::InstallVenv),
                EnsureStage::ProbeSystem(i) => EnsureOutcome::Continue(system_stage(i + 1, n_system)),
                EnsureStage::ProbeBootstrapped => EnsureOutcome::Failed(e),
                _ => EnsureOutcome::Continue(system_stage(0, n_system)),
            },
        },
    }
}

/// Steps the search can still take from a stage.
pub open spec fn stages_left(stage: EnsureStage, n: usize) -> int {
    match stage {
        EnsureStage::CheckCache => n + 7,
        EnsureStage::CheckVenv => n + 6,
        EnsureStage::ProbeVenv => n + 5,
        EnsureStage::InstallVenv => n + 4,
        EnsureStage::ReprobeVenv => n + 3,
        EnsureStage::ProbeSystem(i) => n - i + 2,
        EnsureStage::Bootstrap => 2,
        EnsureStage::ProbeBootstrapped => 1,
    }
}

/// The search ends: every step that continues goes to a valid stage with
/// fewer steps left.
pub proof fn law_search_ends(stage: EnsureStage, n: usize, event: EnsureEvent)
    requires
        answers(stage, event),
        stage_valid(stage, n),
    ensures
        ensure_next(stage, n, event).0 == 0 ==> {
            let next = ensure_next(stage, n, event).1;
            stage_valid(next, n) && 0 < stages_left(next, n) < stages_left(stage, n)
        },
{
}

/// A probe that finds RocketPy always ends the search with its version.
pub proof fn law_probe_success_is_found(stage: EnsureStage, n: usize, version: String)
    ensures
        ensure_next(stage, n, EnsureEvent::Probe(Ok(version))) == (2int, EnsureStage::CheckCache, version@),
{
}

/// The search fails only when creating the project environment fails or the
/// new environment's probe fails, with that error.
pub proof fn law_failure_comes_last(stage: EnsureStage, n: usize, event: EnsureEvent)
    requires
        answers(stage, event),
        ensure_next(stage, n, event).0 == 3,
    ensures
        stage == EnsureStage::Bootstrap || stage == EnsureStage::ProbeBootstrapped,
{
}

/// Every system interpreter is probed, in list order, before a new
/// environment is made: when the project environment is missing or its
/// install fails, the first system interpreter is probed (or, with none,
/// the bootstrap follows), and a failed probe of system interpreter `i`
/// moves to interpreter `i + 1`, and only after the last one to the
/// bootstrap.
pub proof fn law_system_interpreters_in_turn(n: usize, i: usize, e: String)
    ensures
        ensure_next(EnsureStage::CheckVenv, n, EnsureEvent::VenvPresent(false)).1 == if 0 < n {
            EnsureStage::ProbeSystem(0)
        } else {
            EnsureStage::Bootstrap
        },
        ensure_next(EnsureStage::InstallVenv, n, EnsureEvent::Install(false)).1 == if 0 < n {
            EnsureStage::ProbeSystem(0)
        } else {
            EnsureStage::Bootstrap
        },
        i + 1 < n ==> ensure_next(EnsureStage::ProbeSystem(i), n, EnsureEvent::Probe(Err(e)))
            == (0int, EnsureStage::ProbeSystem((i + 1) as usize), Seq::<char>::empty()),
        i + 1 == n ==> ensure_next(EnsureStage::ProbeSystem(i), n, EnsureEvent::Probe(Err(e)))
            == (0int, EnsureStage::Bootstrap, Seq::<char>::empty()),
{
}

} // verus!
