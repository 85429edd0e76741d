use player_db::knowledge::{QueryResult, DB};
use player_db::models::{Jogador, Rating, Tag};
use player_db::parser::Query;
use player_db::DbError;

fn player(id: u32, name: &str, positions: &str) -> Jogador {
    Jogador::new(id, name.to_string(), positions.to_string())
}

#[test]
fn prefix_search_returns_all_matches() {
    let mut db = DB::new();
    db.insert_jogador(player(1, "Jon Doe", "ST")).unwrap();
    db.insert_jogador(player(2, "Jonas", "GK")).unwrap();

    let matches = db.search_jogador("Jon".to_string());
    let mut ids: Vec<u32> = matches.iter().map(|p| p.get_sofifa_id()).collect();
    ids.sort();
    assert_eq!(ids, vec![1, 2]);

    match db.run_query(Query::Player("Jon".to_string())).unwrap() {
        QueryResult::Jogadores(ps) => {
            let mut ids: Vec<u32> = ps.iter().map(|p| p.get_sofifa_id()).collect();
            ids.sort();
            assert_eq!(ids, vec![1, 2]);
        }
        _ => panic!("expected a list of players"),
    }

    match db.run_query(Query::Player("Jonas".to_string())).unwrap() {
        QueryResult::Jogador(p) => assert_eq!(p.get_sofifa_id(), 2),
        _ => panic!("expected a single player"),
    }
}

#[test]
fn tag_intersection() {
    let mut db = DB::new();
    db.insert_jogador(player(5, "Ana", "ST")).unwrap();
    db.insert_jogador(player(7, "Bea", "ST")).unwrap();
    db.insert_jogador(player(9, "Cora", "CF")).unwrap();

    db.insert_tag(Tag::new(5, "Brazil".to_string())).unwrap();
    db.insert_tag(Tag::new(7, "Brazil".to_string())).unwrap();
    db.insert_tag(Tag::new(7, "Striker".to_string())).unwrap();
    db.insert_tag(Tag::new(9, "Striker".to_string())).unwrap();

    let q = Query::Tags(vec!["Brazil".to_string(), "Striker".to_string()]);
    match db.run_query(q).unwrap() {
        QueryResult::Jogadores(ps) => {
            let ids: Vec<u32> = ps.iter().map(|p| p.get_sofifa_id()).collect();
            assert_eq!(ids, vec![7]);
        }
        _ => panic!("expected a list of players"),
    }
}

#[test]
fn top_by_position_after_popularity_threshold() {
    let mut db = DB::new();
    db.insert_jogador(player(10, "Star", "ST")).unwrap();
    db.insert_jogador(player(11, "Other", "ST")).unwrap();

    for _ in 0..1500 {
        db.insert_rating(Rating::new(1, 10, 5000)).unwrap();
    }
    for _ in 0..1200 {
        db.insert_rating(Rating::new(2, 11, 3000)).unwrap();
    }
    db.finish_init();

    match db.run_query(Query::Top(3, "ST".to_string())).unwrap() {
        QueryResult::Jogadores(ps) => {
            let ids: Vec<u32> = ps.iter().map(|p| p.get_sofifa_id()).collect();
            assert_eq!(ids, vec![10, 11]);
        }
        _ => panic!("expected a list of players"),
    }
}

#[test]
fn rating_aggregation_is_exact() {
    let mut db = DB::new();
    db.insert_jogador(player(3, "Avg", "CM")).unwrap();
    db.insert_rating(Rating::new(1, 3, 1000)).unwrap();
    db.insert_rating(Rating::new(2, 3, 2000)).unwrap();
    db.insert_rating(Rating::new(3, 3, 4000)).unwrap();

    let p = db.get_jogador(3).unwrap();
    assert_eq!(p.get_rating_count(), 3);
    assert_eq!(p.get_rating_sum(), 7000);
    assert_eq!(p.get_rating(), 7000 / 3);
}

#[test]
fn user_history_and_lookup() {
    let mut db = DB::new();
    db.insert_jogador(player(4, "Keeper", "GK")).unwrap();
    db.insert_rating(Rating::new(42, 4, 2500)).unwrap();
    db.insert_rating(Rating::new(42, 4, 3500)).unwrap();

    let user = db.get_user(42).unwrap();
    assert_eq!(user.get_id(), 42);
    assert_eq!(user.get_ratings().len(), 2);
    assert_eq!(user.get_ratings()[0].get_rating(), 2500);

    match db.run_query(Query::User(42)).unwrap() {
        QueryResult::User(u) => assert_eq!(u.get_id(), 42),
        _ => panic!("expected a user"),
    }
}

#[test]
fn not_found_errors() {
    let mut db = DB::new();
    assert!(matches!(db.run_query(Query::User(9)), Err(DbError::NotFound)));
    assert!(matches!(
        db.run_query(Query::Top(3, "ST".to_string())),
        Err(DbError::NotFound)
    ));
    assert_eq!(
        db.insert_rating(Rating::new(1, 99, 100)),
        Err(DbError::NotFound)
    );
    assert_eq!(
        db.insert_tag(Tag::new(99, "Lost".to_string())),
        Err(DbError::NotFound)
    );
}

#[test]
fn unknown_tag_empties_intersection() {
    let mut db = DB::new();
    db.insert_jogador(player(5, "Ana", "ST")).unwrap();
    db.insert_tag(Tag::new(5, "Brazil".to_string())).unwrap();
    let q = Query::Tags(vec!["Brazil".to_string(), "Nowhere".to_string()]);
    match db.run_query(q).unwrap() {
        QueryResult::Jogadores(ps) => assert!(ps.is_empty()),
        _ => panic!("expected a list of players"),
    }
}

#[test]
fn positions_are_split_and_trimmed() {
    let mut db = DB::new();
    db.insert_jogador(player(6, "Multi", "ST, CF ,LW")).unwrap();
    let p = db.get_jogador(6).unwrap();
    let pos = &p.get_pos().player_positions;
    assert_eq!(pos, &vec!["ST".to_string(), "CF".to_string(), "LW".to_string()]);
}

#[test]
fn player_tags_are_deduplicated() {
    let mut db = DB::new();
    db.insert_jogador(player(8, "Tagged", "ST")).unwrap();
    db.insert_tag(Tag::new(8, "Fast".to_string())).unwrap();
    db.insert_tag(Tag::new(8, "Fast".to_string())).unwrap();
    db.insert_tag(Tag::new(8, "Tall".to_string())).unwrap();
    let p = db.get_jogador(8).unwrap();
    assert_eq!(p.get_tags(), &vec!["Fast".to_string(), "Tall".to_string()]);
}
