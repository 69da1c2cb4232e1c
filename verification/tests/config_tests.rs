use jot::app_config::AppConfig;
use jot::args::{build_search_query, ConfigArgs, NoteSearchArgs, OutputFormat};
use jot::date::today;
use jot::models::StoreError;
use jot::profile::{get_profile_config_path, get_profile_db_path, get_profile_path, Profile};
use jot::server_model::{classify_challenge, ChallengeResult};
use jot::{get_schema_version, migrate, pending_migrations, set_schema_version, Store};

#[test]
fn test_profile_paths() {
    assert_eq!(
        get_profile_config_path("/home/u/.config/jot", "default"),
        "/home/u/.config/jot/profiles/default.toml"
    );
    assert_eq!(
        get_profile_db_path("/home/u/.local/share/jot", "work"),
        "/home/u/.local/share/jot/profiles/work/notes.db"
    );
    assert_eq!(
        get_profile_path("/cfg", &Some("named".to_string()), "current"),
        "/cfg/profiles/named.toml"
    );
    assert_eq!(
        get_profile_path("/cfg", &None, "current"),
        "/cfg/profiles/current.toml"
    );
}

#[test]
fn test_app_config_resolution() {
    let args = ConfigArgs { profile: None };
    let with_db = Profile {
        db_path: Some("/custom/notes.db".to_string()),
        default_tags: vec![],
    };
    let resolved = AppConfig::from_args(args.clone(), "/p.toml", Some(&with_db), "/default.db");
    assert_eq!(resolved.db_path, "/custom/notes.db");
    assert!(resolved.profile_exists);
    assert_eq!(resolved.profile_path, "/p.toml");

    let bare = Profile::default();
    let resolved = AppConfig::from_args(args.clone(), "/p.toml", Some(&bare), "/default.db");
    assert_eq!(resolved.db_path, "/default.db");

    let resolved = AppConfig::from_args(args, "/p.toml", None, "/default.db");
    assert_eq!(resolved.db_path, "/default.db");
    assert!(!resolved.profile_exists);
}

#[test]
fn test_build_search_query() {
    let args = NoteSearchArgs {
        term: Some("needle".to_string()),
        tag: vec!["work".to_string()],
        limit: Some(5),
        ..Default::default()
    };
    let q = build_search_query(&args);
    assert_eq!(q.text.as_deref(), Some("needle"));
    assert_eq!(q.tags, vec!["work"]);
    assert_eq!(q.limit, Some(5));
    assert!(!q.include_deleted);
    assert!(q.date_from.is_none() && q.date_to.is_none());
    assert_eq!(args.output, OutputFormat::Pretty);
}

#[test]
fn test_schema_migration_chain() {
    let mut store = Store::new();
    assert_eq!(get_schema_version(&store), 0);
    assert_eq!(pending_migrations(0).unwrap(), vec![0, 1]);
    assert_eq!(pending_migrations(1).unwrap(), vec![1]);
    assert_eq!(pending_migrations(2).unwrap(), Vec::<i32>::new());
    assert!(migrate(&mut store).is_ok());
    assert_eq!(get_schema_version(&store), 2);
    assert!(migrate(&mut store).is_ok());
    assert_eq!(get_schema_version(&store), 2);
}

#[test]
fn test_schema_too_new_refused() {
    let mut store = Store::new();
    set_schema_version(&mut store, 3);
    assert_eq!(migrate(&mut store).unwrap_err(), StoreError::SchemaTooNew);
    assert_eq!(get_schema_version(&store), 3);
    assert_eq!(pending_migrations(3).unwrap_err(), StoreError::SchemaTooNew);

    set_schema_version(&mut store, -1);
    assert_eq!(migrate(&mut store).unwrap_err(), StoreError::CorruptRecord);
}

#[test]
fn test_classify_challenge() {
    assert!(matches!(
        classify_challenge(None),
        ChallengeResult::NoChallenge
    ));
    assert!(matches!(classify_challenge(Some(None)), ChallengeResult::Pending));
    match classify_challenge(Some(Some("user-7".to_string()))) {
        ChallengeResult::Success(u) => assert_eq!(u, "user-7"),
        _ => panic!("Expected success"),
    }
}

#[test]
fn test_today_is_a_real_date() {
    let d = today();
    assert!((1..=12).contains(&d.month()));
    assert!((1..=31).contains(&d.day()));
    assert!(d.year() >= 1970);
}

#[test]
fn test_error_messages() {
    assert_eq!(StoreError::NotFound.message(), "note not found");
    assert_eq!(StoreError::Ambiguous.message(), "ambiguous id prefix");
    assert_eq!(StoreError::CorruptRecord.message(), "corrupt record");
    assert_eq!(StoreError::SchemaTooNew.message(), "schema version too new");
    assert_eq!(StoreError::StorageIO.message(), "storage failure");
}

#[test]
fn test_dto_conversions_round_trip() {
    let note = jot::models::Note {
        id: "n".to_string(),
        content: "c".to_string(),
        tags: vec!["t".to_string()],
        subject_date: Some("2025-01-01".to_string()),
        created_at: 1,
        updated_at: 2,
        deleted_at: None,
    };
    let dto = jot::dto::NoteDto::from(note.clone());
    assert_eq!(dto.date.as_deref(), Some("2025-01-01"));
    let back = jot::models::Note::from(dto);
    assert_eq!(back, note);

    let api = jot::cli_model::Note::from(note.clone());
    assert_eq!(api.id, "n");
    assert_eq!(api.date.as_deref(), Some("2025-01-01"));
}
