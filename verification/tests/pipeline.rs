use toggl_summary::summary::{
    default_project, join_descriptions, render_row, summarize_entries, SummaryArgs,
};
use toggl_summary::time_utils::{Date, TimeResolution};
use toggl_summary::toggl::{project_url, time_entries_url, Color, Project, TimeEntry, TogglClient};

fn entry(description: &str, workspace_id: u32, project_id: Option<u32>, duration: i32) -> TimeEntry {
    TimeEntry {
        description: description.to_string(),
        workspace_id,
        project_id,
        duration,
        start: 0,
    }
}

#[test]
fn entries_sharing_a_key_form_one_group() {
    let entries = vec![
        entry("a", 1, Some(7), 10),
        entry("b", 2, Some(7), 20),
        entry("c", 1, Some(7), 30),
        entry("d", 1, Some(7), 40),
    ];
    let groups = summarize_entries(&entries, 0);
    assert_eq!(groups.len(), 2);
    assert_eq!(groups[0].workspace_id, 1);
    assert_eq!(groups[0].total_seconds, 80);
    assert_eq!(groups[1].workspace_id, 2);
    assert_eq!(groups[1].total_seconds, 20);
}

#[test]
fn groups_are_ordered_by_workspace_then_project_with_absent_first() {
    let entries = vec![
        entry("", 2, Some(5), 1),
        entry("", 1, Some(9), 1),
        entry("", 1, None, 1),
        entry("", 1, Some(3), 1),
    ];
    let groups = summarize_entries(&entries, 0);
    let keys: Vec<(u32, Option<u32>)> =
        groups.iter().map(|g| (g.workspace_id, g.project_id)).collect();
    assert_eq!(keys, vec![(1, None), (1, Some(3)), (1, Some(9)), (2, Some(5))]);
}

#[test]
fn descriptions_are_deduplicated_sorted_and_nonempty() {
    let entries = vec![
        entry("writing", 1, Some(1), 5),
        entry("", 1, Some(1), 5),
        entry("analysis", 1, Some(1), 5),
        entry("writing", 1, Some(1), 5),
        entry("billing", 1, Some(1), 5),
    ];
    let groups = summarize_entries(&entries, 0);
    assert_eq!(groups.len(), 1);
    assert_eq!(
        groups[0].descriptions,
        vec!["analysis".to_string(), "billing".to_string(), "writing".to_string()]
    );
    assert_eq!(groups[0].total_seconds, 25);
}

#[test]
fn running_entry_contributes_elapsed_time() {
    let mut running = entry("live", 3, Some(4), -1);
    running.start = 1000;
    let done = entry("done", 3, Some(4), 100);
    let groups = summarize_entries(&vec![running, done], 1600);
    assert_eq!(groups.len(), 1);
    // 600 s elapsed for the running entry plus the recorded 100 s
    assert_eq!(groups[0].total_seconds, 700);
}

#[test]
fn running_entry_starting_in_the_future_counts_zero() {
    let mut running = entry("live", 3, None, -1);
    running.start = 5000;
    let groups = summarize_entries(&vec![running], 1600);
    assert_eq!(groups[0].total_seconds, 0);
}

#[test]
fn finished_entry_reports_its_recorded_duration() {
    let e = entry("done", 1, Some(1), 4321);
    assert_eq!(e.duration_seconds(), 4321);
    let mut running = entry("live", 1, Some(1), -1);
    running.start = 0;
    // a running entry started at the epoch has been going for a while
    assert!(running.duration_seconds() > 0);
}

#[test]
fn project_cache_fetches_each_key_once() {
    let mut client = TogglClient::new("token".to_string());
    assert!(client.needs_project_fetch(1, Some(10)));
    assert!(!client.needs_project_fetch(1, None));
    let work = Project { name: "Work".to_string(), color: Color { r: 0x33, g: 0x66, b: 0xff, a: 0xff } };
    client.store_project(1, 10, work);
    assert!(!client.needs_project_fetch(1, Some(10)));
    assert!(client.needs_project_fetch(1, Some(11)));
    assert!(client.needs_project_fetch(2, Some(10)));
    let held = client.lookup_project(1, 10).expect("cached");
    assert_eq!(held.name, "Work");
    // a second store for the same key keeps the first resolution
    let other = Project { name: "Other".to_string(), color: Color { r: 0, g: 0, b: 0, a: 0xff } };
    client.store_project(1, 10, other);
    assert_eq!(client.lookup_project(1, 10).expect("cached").name, "Work");
    assert!(client.lookup_project(9, 9).is_none());
}

#[test]
fn date_defaults_are_today_and_start_plus_one_day() {
    let args = SummaryArgs {
        start_date: None,
        end_date: None,
        time_resolution: TimeResolution::Minutes,
    };
    let today = Date { year: 2024, month: 3, day: 7 };
    let start = args.start_date_or(today);
    assert_eq!(start, today);
    assert_eq!(args.end_date_or(start), Date { year: 2024, month: 3, day: 8 });

    let explicit = SummaryArgs {
        start_date: Some(Date { year: 2023, month: 1, day: 2 }),
        end_date: Some(Date { year: 2023, month: 1, day: 9 }),
        time_resolution: TimeResolution::Seconds,
    };
    let s = explicit.start_date_or(today);
    assert_eq!(s, Date { year: 2023, month: 1, day: 2 });
    assert_eq!(explicit.end_date_or(s), Date { year: 2023, month: 1, day: 9 });
}

#[test]
fn request_urls_spell_out_dates_and_ids() {
    let start = Date { year: 2024, month: 3, day: 7 };
    let end = Date { year: 2024, month: 3, day: 8 };
    assert_eq!(
        time_entries_url(&start, &end),
        "https://api.track.toggl.com/api/v9/me/time_entries?start_date=2024-03-07&end_date=2024-03-08"
    );
    assert_eq!(
        project_url(42, 10007),
        "https://api.track.toggl.com/api/v9/workspaces/42/projects/10007"
    );
}

#[test]
fn join_descriptions_uses_comma_space() {
    assert_eq!(join_descriptions(&vec![]), "");
    assert_eq!(join_descriptions(&vec!["a".to_string()]), "a");
    assert_eq!(
        join_descriptions(&vec!["a".to_string(), "b".to_string(), "c".to_string()]),
        "a, b, c"
    );
}

#[test]
fn end_to_end_summary_scenario() {
    let entries = vec![
        entry("A", 1, Some(10), 600),
        entry("A", 1, Some(10), 300),
        entry("", 1, None, 120),
    ];
    let groups = summarize_entries(&entries, 0);
    assert_eq!(groups.len(), 2);

    assert_eq!(groups[0].project_id, None);
    assert_eq!(groups[0].total_seconds, 120);
    assert!(groups[0].descriptions.is_empty());
    let sentinel = default_project();
    assert_eq!(sentinel.name, "(no project)");
    assert_eq!(sentinel.color, Color { r: 0x7f, g: 0x7f, b: 0x7f, a: 0xff });
    assert_eq!(
        render_row(TimeResolution::Minutes, &groups[0], &sentinel.name),
        "00:02 (no project) "
    );

    assert_eq!(groups[1].project_id, Some(10));
    assert_eq!(groups[1].total_seconds, 900);
    assert_eq!(groups[1].descriptions, vec!["A".to_string()]);
    let work = Project { name: "Work".to_string(), color: Color { r: 0x33, g: 0x66, b: 0xff, a: 0xff } };
    assert_eq!(
        render_row(TimeResolution::Minutes, &groups[1], &work.name),
        "00:15 Work A"
    );
}
