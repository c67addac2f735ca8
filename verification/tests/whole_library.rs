use spotify_shuffle::client::{Client, CreatePlaylist};
use spotify_shuffle::cmd::{BaseCmd, BaseOpts};
use spotify_shuffle::library::{
    get_or_create_shuffle_playlist_id, have_albums, have_ids, is_banned, keep_identified,
    load_groups, shuffle_library, shuffle_library_with, DataError, Destination, OwnedPlaylist,
};
use spotify_shuffle::model::{Playlist, Track, TrackGroup};
use spotify_shuffle::settings::{MissingIdPolicy, Settings};

const MINUTE: u32 = 60_000;

fn piece(id: &str, album: &str, duration_ms: u32) -> Track {
    Track {
        id: Some(id.to_string()),
        album_id: Some(format!("id-of-{}", album)),
        album_name: album.to_string(),
        duration_ms,
    }
}

fn owned(id: &str, name: &str, tracks: Vec<Track>) -> OwnedPlaylist {
    OwnedPlaylist { playlist: Playlist { id: id.to_string(), name: name.to_string() }, tracks }
}

fn texts(ids: &[&str]) -> Vec<String> {
    ids.iter().map(|id| id.to_string()).collect()
}

fn album_x() -> Vec<Track> {
    vec![piece("x1", "X", 40 * MINUTE), piece("x2", "X", 40 * MINUTE), piece("x3", "X", 20 * MINUTE)]
}

fn live_set() -> Vec<Track> {
    vec![
        piece("l1", "A", 12 * MINUTE),
        piece("l2", "B", 12 * MINUTE),
        piece("l3", "C", 12 * MINUTE),
        piece("l4", "D", 12 * MINUTE),
        piece("l5", "E", 12 * MINUTE),
    ]
}

#[test]
fn command_line_names_one_command() {
    let opts = BaseOpts { command: BaseCmd::ShuffleLibrary };
    assert_eq!(opts.command, BaseCmd::ShuffleLibrary);
}

#[test]
fn the_four_names_are_banned() {
    assert!(is_banned("Discover Weekly"));
    assert!(is_banned("Starred"));
    assert!(is_banned("Liked from Radio"));
    assert!(is_banned("Shuffle"));
}

#[test]
fn other_names_are_not_banned() {
    assert!(!is_banned("shuffle"));
    assert!(!is_banned("Shuffle "));
    assert!(!is_banned("Shuffle 2"));
    assert!(!is_banned(""));
    assert!(!is_banned("Discover"));
    assert!(!is_banned("Road Trip"));
}

#[test]
fn tracks_with_and_without_ids_are_told_apart() {
    let mut tracks = album_x();
    assert!(have_ids(&tracks));
    assert!(have_albums(&tracks));
    tracks[2].id = None;
    assert!(!have_ids(&tracks));
    assert!(have_albums(&tracks));
    tracks[0].album_id = None;
    assert!(!have_albums(&tracks));
    assert!(have_ids(&[]));
    assert!(have_albums(&[]));
}

#[test]
fn keeping_identified_tracks_drops_the_others_in_place() {
    let mut tracks = album_x();
    tracks[1].id = None;
    let kept = keep_identified(&tracks);
    assert_eq!(kept, vec![piece("x1", "X", 40 * MINUTE), piece("x3", "X", 20 * MINUTE)]);
    assert_eq!(keep_identified(&album_x()), album_x());
}

#[test]
fn groups_of_all_playlists_are_laid_end_to_end() {
    let library = vec![owned("p1", "Albums", album_x()), owned("p2", "Live Set", live_set())];
    let groups = load_groups(&library, &Settings::default());
    assert_eq!(
        groups,
        Ok(vec![
            TrackGroup {
                name: "X".to_string(),
                track_ids: texts(&["x1", "x2", "x3"]),
                duration_ms: 6_000_000,
            },
            TrackGroup {
                name: "Live Set".to_string(),
                track_ids: texts(&["l1", "l2", "l3", "l4", "l5"]),
                duration_ms: 3_600_000,
            },
        ])
    );
}

#[test]
fn banned_playlists_are_no_source() {
    let library = vec![
        owned("p0", "Discover Weekly", live_set()),
        owned("p1", "Albums", album_x()),
        owned("p2", "Shuffle", live_set()),
        owned("p3", "Starred", album_x()),
        owned("p4", "Liked from Radio", album_x()),
    ];
    let groups = load_groups(&library, &Settings::default()).unwrap();
    assert_eq!(groups.len(), 1);
    assert_eq!(groups[0].name, "X");
}

#[test]
fn tracks_of_a_banned_playlist_are_not_even_checked() {
    let mut broken = album_x();
    broken[0].id = None;
    broken[1].album_id = None;
    let library = vec![owned("p1", "Shuffle", broken), owned("p2", "Albums", album_x())];
    let groups = load_groups(&library, &Settings::default()).unwrap();
    assert_eq!(groups.len(), 1);
}

#[test]
fn empty_library_has_no_groups() {
    assert_eq!(load_groups(&vec![], &Settings::default()), Ok(vec![]));
}

#[test]
fn track_without_id_fails_the_load() {
    let mut broken = live_set();
    broken[3].id = None;
    let library = vec![owned("p1", "Albums", album_x()), owned("p2", "Live Set", broken)];
    assert_eq!(
        load_groups(&library, &Settings::default()),
        Err(DataError::MissingTrackId { playlist: 1 })
    );
}

#[test]
fn track_without_album_fails_the_load_where_albums_are_split() {
    let mut broken = album_x();
    broken[1].album_id = None;
    let library = vec![owned("p1", "Albums", broken)];
    assert_eq!(
        load_groups(&library, &Settings::default()),
        Err(DataError::MissingAlbumId { playlist: 0 })
    );
}

#[test]
fn track_without_album_is_fine_in_a_playlist_kept_whole() {
    let mut mix = live_set();
    mix[0].album_id = None;
    let library = vec![owned("p1", "Live Set", mix)];
    let groups = load_groups(&library, &Settings::default()).unwrap();
    assert_eq!(groups.len(), 1);
    assert_eq!(groups[0].name, "Live Set");
}

#[test]
fn missing_id_is_reported_before_missing_album() {
    let mut broken = album_x();
    broken[0].album_id = None;
    broken[2].id = None;
    let library = vec![owned("p1", "Albums", broken)];
    assert_eq!(
        load_groups(&library, &Settings::default()),
        Err(DataError::MissingTrackId { playlist: 0 })
    );
}

#[test]
fn first_flawed_playlist_is_the_one_reported() {
    let mut no_album = album_x();
    no_album[0].album_id = None;
    let mut no_id = album_x();
    no_id[0].id = None;
    let library = vec![
        owned("p0", "Fine", album_x()),
        owned("p1", "No Album", no_album),
        owned("p2", "No Id", no_id),
    ];
    assert_eq!(
        load_groups(&library, &Settings::default()),
        Err(DataError::MissingAlbumId { playlist: 1 })
    );
}

#[test]
fn tracks_without_id_can_be_skipped_instead() {
    let mut tracks = album_x();
    tracks[2].id = None;
    let library = vec![owned("p1", "Albums", tracks)];
    let mut settings = Settings::default();
    settings.missing_track_id = MissingIdPolicy::Skip;
    assert_eq!(
        load_groups(&library, &settings),
        Ok(vec![TrackGroup {
            name: "Albums".to_string(),
            track_ids: texts(&["x1", "x2"]),
            duration_ms: 4_800_000,
        }])
    );
    settings.missing_track_id = MissingIdPolicy::Abort;
    assert_eq!(load_groups(&library, &settings), Err(DataError::MissingTrackId { playlist: 0 }));
}

#[test]
fn existing_shuffle_playlist_is_used_again() {
    let client = Client::new("me".to_string());
    let library = vec![
        owned("p1", "Albums", vec![]),
        owned("p2", "Shuffle", vec![]),
        owned("p3", "Shuffle", vec![]),
    ];
    assert_eq!(
        get_or_create_shuffle_playlist_id(&client, &library),
        Destination::Existing("p2".to_string())
    );
}

#[test]
fn shuffle_playlist_is_created_where_there_is_none() {
    let client = Client::new("me".to_string());
    let library = vec![owned("p1", "Albums", vec![]), owned("p2", "shuffle", vec![])];
    assert_eq!(
        get_or_create_shuffle_playlist_id(&client, &library),
        Destination::Create(CreatePlaylist {
            user_id: "me".to_string(),
            name: "Shuffle".to_string(),
            public: false,
            description: "Automatically-generated shuffled playlist".to_string(),
        })
    );
}

#[test]
fn whole_run_takes_both_playlists_and_leaves_the_destination_out() {
    let client = Client::new("me".to_string());
    let library = vec![
        owned("pa", "A", album_x()),
        owned("pb", "Live Set", live_set()),
        owned("dest", "Shuffle", vec![piece("old", "Old", 30 * MINUTE)]),
    ];
    let mut settings = Settings::default();
    settings.goal_ms = 100 * 60_000;
    for _ in 0..20 {
        let plan = shuffle_library_with(&client, &library, &settings).unwrap();
        assert_eq!(plan.destination, Destination::Existing("dest".to_string()));
        let album_first = texts(&["x1", "x2", "x3", "l1", "l2", "l3", "l4", "l5"]);
        let mix_first = texts(&["l1", "l2", "l3", "l4", "l5", "x1", "x2", "x3"]);
        let names: Vec<&str> = plan.groups.iter().map(|group| group.name.as_str()).collect();
        if names == vec!["X", "Live Set"] {
            assert_eq!(plan.track_ids, album_first);
        } else {
            assert_eq!(names, vec!["Live Set", "X"]);
            assert_eq!(plan.track_ids, mix_first);
        }
    }
}

#[test]
fn fifty_minute_album_and_sixty_minute_set_both_make_the_playlist() {
    let client = Client::new("me".to_string());
    let album = vec![
        piece("x1", "X", 20 * MINUTE),
        piece("x2", "X", 20 * MINUTE),
        piece("x3", "X", 10 * MINUTE),
    ];
    let library = vec![owned("pa", "A", album), owned("pb", "Live Set", live_set())];
    let groups = load_groups(&library, &Settings::default()).unwrap();
    assert_eq!(
        groups,
        vec![
            TrackGroup {
                name: "A".to_string(),
                track_ids: texts(&["x1", "x2", "x3"]),
                duration_ms: 3_000_000,
            },
            TrackGroup {
                name: "Live Set".to_string(),
                track_ids: texts(&["l1", "l2", "l3", "l4", "l5"]),
                duration_ms: 3_600_000,
            },
        ]
    );
    let mut settings = Settings::default();
    settings.goal_ms = 100 * 60_000;
    for _ in 0..20 {
        let plan = shuffle_library_with(&client, &library, &settings).unwrap();
        let mut ids = plan.track_ids.clone();
        assert_eq!(ids.len(), 8);
        ids.sort();
        assert_eq!(ids, texts(&["l1", "l2", "l3", "l4", "l5", "x1", "x2", "x3"]));
    }
}

#[test]
fn whole_run_with_the_usual_settings() {
    let client = Client::new("me".to_string());
    let library = vec![owned("pa", "A", album_x())];
    let plan = shuffle_library(&client, &library).unwrap();
    assert_eq!(plan.track_ids, texts(&["x1", "x2", "x3"]));
    assert_eq!(
        plan.groups,
        vec![TrackGroup {
            name: "X".to_string(),
            track_ids: texts(&["x1", "x2", "x3"]),
            duration_ms: 6_000_000,
        }]
    );
    assert_eq!(
        plan.destination,
        Destination::Create(client.create_playlist("Shuffle", None))
    );
}

#[test]
fn whole_run_fails_on_a_track_without_id() {
    let client = Client::new("me".to_string());
    let mut broken = album_x();
    broken[0].id = None;
    let library = vec![owned("pa", "A", broken)];
    assert_eq!(shuffle_library(&client, &library), Err(DataError::MissingTrackId { playlist: 0 }));
}

#[test]
fn plan_lists_only_the_groups_taken() {
    let client = Client::new("me".to_string());
    let library = vec![
        owned("p1", "One", album_x()),
        owned("p2", "Two", album_x()),
        owned("p3", "Three", album_x()),
    ];
    let mut settings = Settings::default();
    settings.goal_ms = 150 * 60_000;
    let plan = shuffle_library_with(&client, &library, &settings).unwrap();
    assert_eq!(plan.groups.len(), 2);
    assert_eq!(plan.track_ids, texts(&["x1", "x2", "x3", "x1", "x2", "x3"]));
}
