use aegis::search::{next_highlight, parse_coord_expr, CoordExpr, DmsPart};

fn bare(a: &str, b: &str) -> Option<CoordExpr> {
    Some(CoordExpr::BareDecimal { first: a.to_string(), second: b.to_string() })
}

fn hemi(a: &str, h1: char, b: &str, h2: char) -> Option<CoordExpr> {
    Some(CoordExpr::DecimalHemisphere {
        lat: a.to_string(),
        lat_hemisphere: h1,
        lon: b.to_string(),
        lon_hemisphere: h2,
    })
}

fn part(d: &str, m: Option<&str>, s: Option<&str>, h: char) -> DmsPart {
    DmsPart {
        degrees: d.to_string(),
        minutes: m.map(|x| x.to_string()),
        seconds: s.map(|x| x.to_string()),
        hemisphere: h,
    }
}

#[test]
fn coord_expr_bare_decimal_comma() {
    assert_eq!(parse_coord_expr("41.87, -87.63"), bare("41.87", "-87.63"));
}

#[test]
fn coord_expr_bare_decimal_whitespace() {
    assert_eq!(parse_coord_expr("41.87 -87.63"), bare("41.87", "-87.63"));
    assert_eq!(parse_coord_expr("  151.2,\t-33.9  "), bare("151.2", "-33.9"));
}

fn plain_dms(a: &str, h1: char, b: &str, h2: char) -> Option<CoordExpr> {
    Some(CoordExpr::Dms { lat: part(a, None, None, h1), lon: part(b, None, None, h2) })
}

#[test]
fn coord_expr_decimal_degrees_with_letters_read_as_dms() {
    // Unsigned decimal degrees with letters fit the DMS form, which is
    // tried first; the angle is the same either way.
    assert_eq!(parse_coord_expr("41.87°N 87.63°W"), plain_dms("41.87", 'N', "87.63", 'W'));
    assert_eq!(parse_coord_expr("41.87N, 87.63W"), plain_dms("41.87", 'N', "87.63", 'W'));
    assert_eq!(parse_coord_expr("33.9S, 151.2E"), plain_dms("33.9", 'S', "151.2", 'E'));
}

#[test]
fn coord_expr_hemisphere_letters() {
    assert_eq!(parse_coord_expr("-33.9 s , 151.2 e"), hemi("-33.9", 's', "151.2", 'e'));
    assert_eq!(parse_coord_expr("41.87°N, -87.63°W"), hemi("41.87", 'N', "-87.63", 'W'));
}

#[test]
fn coord_expr_keeps_out_of_range_figures() {
    // Range checks happen when the figures become angles.
    assert_eq!(parse_coord_expr("95.0°N 87.63°W"), plain_dms("95.0", 'N', "87.63", 'W'));
    assert_eq!(parse_coord_expr("-95.0°N 87.63°W"), hemi("-95.0", 'N', "87.63", 'W'));
    assert_eq!(parse_coord_expr("41.87, 200.0"), bare("41.87", "200.0"));
}

#[test]
fn coord_expr_dms_ascii_quotes() {
    assert_eq!(
        parse_coord_expr("41°52'12\"N 87°37'48\"W"),
        Some(CoordExpr::Dms {
            lat: part("41", Some("52"), Some("12"), 'N'),
            lon: part("87", Some("37"), Some("48"), 'W'),
        })
    );
}

#[test]
fn coord_expr_dms_unicode_primes() {
    assert_eq!(
        parse_coord_expr("41°52′12″N 87°37′48″W"),
        Some(CoordExpr::Dms {
            lat: part("41", Some("52"), Some("12"), 'N'),
            lon: part("87", Some("37"), Some("48"), 'W'),
        })
    );
}

#[test]
fn coord_expr_dms_without_seconds() {
    assert_eq!(
        parse_coord_expr("33°54'S 151°12'E"),
        Some(CoordExpr::Dms {
            lat: part("33", Some("54"), None, 'S'),
            lon: part("151", Some("12"), None, 'E'),
        })
    );
}

#[test]
fn coord_expr_dms_seconds_without_minutes() {
    assert_eq!(
        parse_coord_expr("10° 30\" n, 20 5.5\" e"),
        Some(CoordExpr::Dms {
            lat: part("10", None, Some("30"), 'n'),
            lon: part("20", None, Some("5.5"), 'e'),
        })
    );
}

#[test]
fn coord_expr_dms_wins_over_hemisphere_form() {
    // Plain degrees with letters read as DMS (tried first).
    assert_eq!(
        parse_coord_expr("41N 87W"),
        Some(CoordExpr::Dms { lat: part("41", None, None, 'N'), lon: part("87", None, None, 'W') })
    );
    // A sign is not allowed in DMS, so this falls through.
    assert_eq!(parse_coord_expr("-41N 87W"), hemi("-41", 'N', "87", 'W'));
}

#[test]
fn coord_expr_dms_degrees_run_into_minutes() {
    // Without a degree sign the longest degree figure that still lets
    // the rest match is taken.
    assert_eq!(
        parse_coord_expr("4152'N 8737'W"),
        Some(CoordExpr::Dms {
            lat: part("415", Some("2"), None, 'N'),
            lon: part("873", Some("7"), None, 'W'),
        })
    );
}

#[test]
fn coord_expr_rejects_two_commas_and_missing_separator() {
    assert_eq!(parse_coord_expr("41.87,, -87.63"), None);
    assert_eq!(parse_coord_expr("41.87N87.63W"), None);
    assert_eq!(parse_coord_expr("41.87. -87.63"), None);
    assert_eq!(parse_coord_expr("41.87, -87.63x"), None);
}

#[test]
fn rejects_garbage() {
    assert_eq!(parse_coord_expr("xyzzy"), None);
    assert_eq!(parse_coord_expr(""), None);
    assert_eq!(parse_coord_expr("   "), None);
    assert_eq!(parse_coord_expr("41.87"), None);
    assert_eq!(parse_coord_expr("hello, world"), None);
}

#[test]
fn coord_expr_city_inputs() {
    assert_eq!(parse_coord_expr("-33.9, 151.2"), bare("-33.9", "151.2"));
    assert_eq!(parse_coord_expr("64.13°N, 21.94°W"), plain_dms("64.13", 'N', "21.94", 'W'));
    assert_eq!(
        parse_coord_expr("35°41'24\"N 139°41'24\"E"),
        Some(CoordExpr::Dms {
            lat: part("35", Some("41"), Some("24"), 'N'),
            lon: part("139", Some("41"), Some("24"), 'E'),
        })
    );
}

#[test]
fn highlight_moves_and_wraps() {
    assert_eq!(next_highlight(None, 3, 1), Some(0));
    assert_eq!(next_highlight(None, 3, -1), Some(1));
    assert_eq!(next_highlight(Some(0), 3, 1), Some(1));
    assert_eq!(next_highlight(Some(2), 3, 1), Some(0));
    assert_eq!(next_highlight(Some(0), 3, -1), Some(2));
    assert_eq!(next_highlight(Some(1), 3, -7), Some(0));
}

#[test]
fn highlight_unchanged_without_results() {
    assert_eq!(next_highlight(None, 0, 1), None);
    assert_eq!(next_highlight(Some(4), 0, -1), Some(4));
}

use aegis::search::{
    search_step, SearchAction, SearchEvent, SearchNotice, SearchState, SEARCH_DEBOUNCE_MS,
};

fn state(query: &str, generation: u64, pending_timer: Option<u64>) -> SearchState {
    SearchState { query: query.to_string(), generation, pending_timer }
}

type Ev = SearchEvent<u32, String>;

#[test]
fn typing_starts_a_new_generation_with_one_timer() {
    let (next, action) = search_step(state("", 4, None), Ev::InputChanged("Topeka".to_string()));
    assert_eq!((next.generation, next.pending_timer), (5, Some(5)));
    assert_eq!(next.query, "Topeka");
    assert!(matches!(
        action,
        SearchAction::Schedule { cancel: false, generation: 5, delay_ms: SEARCH_DEBOUNCE_MS }
    ));
    let (next, action) = search_step(next, Ev::InputChanged("Topeka, K".to_string()));
    assert_eq!((next.generation, next.pending_timer), (6, Some(6)));
    assert!(matches!(action, SearchAction::Schedule { cancel: true, generation: 6, delay_ms: 250 }));
}

#[test]
fn blank_query_clears_and_schedules_nothing() {
    let (next, action) = search_step(state("Top", 6, Some(6)), Ev::InputChanged(" \t ".to_string()));
    assert_eq!((next.generation, next.pending_timer), (6, None));
    assert!(matches!(action, SearchAction::Clear { cancel: true }));
    let (_, action) = search_step(state("", 6, None), Ev::InputChanged(String::new()));
    assert!(matches!(action, SearchAction::Clear { cancel: false }));
}

#[test]
fn timer_for_latest_generation_geocodes_or_shows_coordinate() {
    let (next, action) =
        search_step(state("Topeka", 3, Some(3)), Ev::TimerFired { generation: 3, coordinate: false });
    assert_eq!(next.pending_timer, None);
    match action {
        SearchAction::Geocode { query, generation } => {
            assert_eq!(query, "Topeka");
            assert_eq!(generation, 3);
        }
        _ => panic!("expected a geocoder lookup"),
    }
    let (_, action) =
        search_step(state("41.87, -87.63", 3, Some(3)), Ev::TimerFired { generation: 3, coordinate: true });
    assert!(matches!(action, SearchAction::ShowCoordinate));
}

#[test]
fn stale_timer_and_stale_reply_do_nothing() {
    let (next, action) =
        search_step(state("Topeka", 3, Some(3)), Ev::TimerFired { generation: 2, coordinate: false });
    assert_eq!(next.pending_timer, Some(3));
    assert!(matches!(action, SearchAction::Nothing));
    let (_, action) = search_step(state("Topeka", 3, None), Ev::Reply { generation: 2, result: Ok(vec![1, 2]) });
    assert!(matches!(action, SearchAction::Nothing));
}

#[test]
fn current_reply_shows_results_or_a_notice() {
    let (_, action) = search_step(state("Topeka", 3, None), Ev::Reply { generation: 3, result: Ok(vec![7, 8]) });
    match action {
        SearchAction::ShowResults(v) => assert_eq!(v, vec![7, 8]),
        _ => panic!("expected results"),
    }
    let (_, action) = search_step(state("xyzzy", 3, None), Ev::Reply { generation: 3, result: Ok(vec![]) });
    assert!(matches!(action, SearchAction::ShowNotice(SearchNotice::NoMatches)));
    let (_, action) =
        search_step(state("xyzzy", 3, None), Ev::Reply { generation: 3, result: Err("down".to_string()) });
    assert!(matches!(action, SearchAction::ShowNotice(SearchNotice::GeocoderUnreachable)));
}

#[test]
fn reply_to_a_superseded_query_is_never_shown() {
    let s = state("", 0, None);
    let (s, _) = search_step(s, Ev::InputChanged("Topeka".to_string()));
    let (s, first) = search_step(s, Ev::TimerFired { generation: 1, coordinate: false });
    assert!(matches!(first, SearchAction::Geocode { generation: 1, .. }));
    let (s, _) = search_step(s, Ev::InputChanged("Topeka, Kansas".to_string()));
    assert_eq!((s.generation, s.pending_timer), (2, Some(2)));
    let (s, late) = search_step(s, Ev::Reply { generation: 1, result: Ok(vec![5]) });
    assert!(matches!(late, SearchAction::Nothing));
    let (s, stale_timer) = search_step(s, Ev::TimerFired { generation: 1, coordinate: false });
    assert!(matches!(stale_timer, SearchAction::Nothing));
    assert_eq!(s.pending_timer, Some(2));
}
