use fauxrrt::wind::{check_reply, default_hour, hourly_params, pick_hour};

#[test]
fn default_hour_is_noon() {
    assert_eq!(default_hour(), 12);
}

#[test]
fn hourly_params_list_surface_then_levels() {
    let p = hourly_params();
    assert!(p.starts_with(
        "wind_speed_10m,wind_direction_10m,wind_speed_100m,wind_direction_100m,wind_speed_950hPa,wind_direction_950hPa,geopotential_height_950hPa,wind_speed_925hPa"
    ));
    assert!(p.ends_with("wind_speed_30hPa,wind_direction_30hPa,geopotential_height_30hPa"));
    assert_eq!(p.split(',').count(), 4 + 3 * 17);
    assert!(!p.contains(",,"));
}

#[test]
fn picks_the_sample_of_the_hour() {
    let times = vec![
        Some("2024-01-01T00:00".to_string()),
        None,
        Some("2024-01-01T07:00".to_string()),
        Some("2024-01-01T12:00".to_string()),
    ];
    assert_eq!(pick_hour(&times, 7), Some(2));
    assert_eq!(pick_hour(&times, 12), Some(3));
    assert_eq!(pick_hour(&times, 0), Some(0));
    assert_eq!(pick_hour(&times, 5), None);
    assert_eq!(pick_hour(&[Some("T123:".to_string())], 123), Some(0));
}

fn stamps(v: &[&str]) -> Option<Vec<Option<String>>> {
    Some(v.iter().map(|s| Some(s.to_string())).collect())
}

#[test]
fn the_archive_reply_is_checked_in_order() {
    let t = || stamps(&["2024-05-01T11:00", "2024-05-01T12:00"]);
    assert_eq!(check_reply(None, None, true, t(), 12), Ok(1));
    assert_eq!(check_reply(Some(false), None, true, t(), 11), Ok(0));
    assert_eq!(
        check_reply(Some(true), Some("Parameter is invalid".to_string()), true, t(), 12),
        Err("Parameter is invalid".to_string())
    );
    assert_eq!(check_reply(Some(true), None, true, t(), 12), Err("Open-Meteo error".to_string()));
    assert_eq!(check_reply(None, None, false, None, 12), Err("wind response missing hourly data".to_string()));
    assert_eq!(check_reply(None, None, true, None, 12), Err("wind response missing times".to_string()));
    assert_eq!(check_reply(None, None, true, t(), 3), Err("no wind sample at that hour".to_string()));
}
