use player_db::parser::{parse_query, Query};

#[test]
fn test_parse_query() {
    let query = "player Cristiano Ronaldo";
    let query = parse_query(query).unwrap();
    assert_eq!(query, Query::Player("Cristiano Ronaldo".to_string()));

    let query = "user 123";
    let query = parse_query(query).unwrap();
    assert_eq!(query, Query::User(123));

    let query = "tags 'ST' 'CF'";
    let query = parse_query(query).unwrap();
    assert_eq!(query, Query::Tags(vec!["ST".to_string(), "CF".to_string()]));

    let query = "top10 'ST'";
    let query = parse_query(query).unwrap();
    assert_eq!(query, Query::Top(10, "ST".to_string()));
}

#[test]
fn test_try_from() {
    let query = "player Cristiano Ronaldo";
    let query = Query::try_from(query).unwrap();
    assert_eq!(query, Query::Player("Cristiano Ronaldo".to_string()));

    let query = "user 123";
    let query = Query::try_from(query).unwrap();
    assert_eq!(query, Query::User(123));

    let query = "tags 'ST' 'CF'";
    let query = Query::try_from(query).unwrap();
    assert_eq!(query, Query::Tags(vec!["ST".to_string(), "CF".to_string()]));

    let query = "top10 'ST'";
    let query = Query::try_from(query).unwrap();
    assert_eq!(query, Query::Top(10, "ST".to_string()));
}

#[test]
fn test_wrong_query() {
    let query = "player";
    let query = parse_query(query);
    assert!(query.is_err());

    let query = "user";
    let query = parse_query(query);
    assert!(query.is_err());

    let query = "tags";
    let query = parse_query(query);
    assert!(query.is_err());

    let query = "tags ";
    let query = parse_query(query);
    assert!(query.is_err());

    let query = "top";
    let query = parse_query(query);
    assert!(query.is_err());

    let query = "top0";
    let query = parse_query(query);
    assert!(query.is_err());

    let query = "top9";
    let query = parse_query(query);
    assert!(query.is_err());

    let query = "top 'ST'";
    let query = parse_query(query);
    assert!(query.is_err());
}
