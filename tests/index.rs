use paths_exercise::{
    create_post, get_all_tags, get_posts_by_tag, get_posts_by_time, ContentGraph, ContentHash,
    CreateTaskInput, EnsureOutcome, GetPostsByTagInput, GetPostsByTimeInput, IndexError, Path,
    Post, UtcInstant,
};

fn at(year: i32, month: u32, day: u32, hour: u32) -> UtcInstant {
    UtcInstant { year, month, day, hour }
}

fn input(content: &str, tags: &[&str]) -> CreateTaskInput {
    CreateTaskInput {
        content: content.to_string(),
        tags: tags.iter().map(|t| t.to_string()).collect(),
    }
}

fn by_time(year: usize, month: usize, day: usize, hour: Option<usize>) -> GetPostsByTimeInput {
    GetPostsByTimeInput { year, month, day, hour }
}

fn bodies(posts: Vec<Post>) -> Vec<String> {
    let mut v: Vec<String> = posts.into_iter().map(|p| p.0).collect();
    v.sort();
    v
}

fn tag_posts(g: &ContentGraph, tag: &str) -> Vec<String> {
    bodies(get_posts_by_tag(g, GetPostsByTagInput(tag.to_string())).unwrap().0)
}

fn strings(v: &[&str]) -> Vec<String> {
    v.iter().map(|s| s.to_string()).collect()
}

#[test]
fn scenario_hello_rust_holochain() {
    let mut g = ContentGraph::new();
    let h = create_post(&mut g, &at(2023, 5, 1, 10), input("hello", &["rust", "holochain"])).unwrap();
    assert_eq!(g.get(h), Some("hello".to_string()));
    let hello = vec![Post("hello".to_string())];
    assert_eq!(get_posts_by_time(&g, by_time(2023, 5, 1, Some(10))).0, hello);
    assert_eq!(get_posts_by_time(&g, by_time(2023, 5, 1, None)).0, hello);
    assert_eq!(get_posts_by_time(&g, by_time(2023, 5, 1, Some(9))).0, vec![]);
    let mut tags = get_all_tags(&g).0;
    tags.sort();
    assert_eq!(tags, strings(&["holochain", "rust"]));
    assert_eq!(get_posts_by_tag(&g, GetPostsByTagInput("rust".to_string())).unwrap().0, hello);
}

#[test]
fn round_trip_every_tag_finds_the_post() {
    let mut g = ContentGraph::new();
    create_post(&mut g, &at(2024, 2, 29, 23), input("first", &["a", "b"])).unwrap();
    create_post(&mut g, &at(2024, 3, 1, 0), input("second", &["b", "c", "d"])).unwrap();
    assert_eq!(tag_posts(&g, "a"), strings(&["first"]));
    assert_eq!(tag_posts(&g, "b"), strings(&["first", "second"]));
    assert_eq!(tag_posts(&g, "c"), strings(&["second"]));
    assert_eq!(tag_posts(&g, "d"), strings(&["second"]));
    assert_eq!(tag_posts(&g, "e"), Vec::<String>::new());
}

#[test]
fn post_is_only_in_its_own_hour() {
    let mut g = ContentGraph::new();
    create_post(&mut g, &at(2023, 5, 1, 10), input("ten", &[])).unwrap();
    for hour in 0..24 {
        let found = bodies(get_posts_by_time(&g, by_time(2023, 5, 1, Some(hour))).0);
        if hour == 10 {
            assert_eq!(found, strings(&["ten"]));
        } else {
            assert!(found.is_empty());
        }
    }
    assert!(get_posts_by_time(&g, by_time(2023, 5, 2, Some(10))).0.is_empty());
    assert!(get_posts_by_time(&g, by_time(2023, 1, 5, Some(10))).0.is_empty());
}

#[test]
fn day_query_is_the_union_of_its_hours() {
    let mut g = ContentGraph::new();
    create_post(&mut g, &at(2023, 5, 1, 9), input("nine", &["x"])).unwrap();
    create_post(&mut g, &at(2023, 5, 1, 10), input("ten", &["x"])).unwrap();
    create_post(&mut g, &at(2023, 5, 1, 10), input("ten again", &[])).unwrap();
    create_post(&mut g, &at(2023, 5, 2, 10), input("next day", &[])).unwrap();
    let day = bodies(get_posts_by_time(&g, by_time(2023, 5, 1, None)).0);
    let mut union: Vec<String> = Vec::new();
    for hour in 0..24 {
        union.extend(get_posts_by_time(&g, by_time(2023, 5, 1, Some(hour))).0.into_iter().map(|p| p.0));
    }
    union.sort();
    assert_eq!(day, union);
    assert_eq!(day, strings(&["nine", "ten", "ten again"]));
    assert!(get_posts_by_time(&g, by_time(2023, 5, 3, None)).0.is_empty());
}

#[test]
fn same_body_in_two_hours_of_a_day_is_listed_twice() {
    let mut g = ContentGraph::new();
    let a = create_post(&mut g, &at(2023, 5, 1, 9), input("same", &[])).unwrap();
    let b = create_post(&mut g, &at(2023, 5, 1, 10), input("same", &[])).unwrap();
    assert_eq!(a, b);
    assert_eq!(bodies(get_posts_by_time(&g, by_time(2023, 5, 1, None)).0), strings(&["same", "same"]));
}

#[test]
fn tag_is_listed_once_however_many_posts_carry_it() {
    let mut g = ContentGraph::new();
    for n in 0..5u32 {
        let body = format!("post {}", n);
        create_post(&mut g, &at(2023, 5, 1, n), input(&body, &["x", "x"])).unwrap();
        let tags = get_all_tags(&g).0;
        assert_eq!(tags.iter().filter(|t| t.as_str() == "x").count(), 1);
    }
    assert_eq!(get_all_tags(&g).0, strings(&["x"]));
    assert_eq!(tag_posts(&g, "x").len(), 5);
}

#[test]
fn ensure_twice_is_idempotent() {
    let mut g = ContentGraph::new();
    let p = Path::build(strings(&["a", "b", "c"])).unwrap();
    assert_eq!(g.ensure(&p), EnsureOutcome::Created);
    let root = Path::build(strings(&["a"])).unwrap();
    let mid = Path::build(strings(&["a", "b"])).unwrap();
    assert_eq!(g.child_labels(&root), strings(&["b"]));
    assert_eq!(g.child_labels(&mid), strings(&["c"]));
    assert_eq!(g.ensure(&p), EnsureOutcome::AlreadyExisted);
    assert_eq!(g.child_labels(&root), strings(&["b"]));
    assert_eq!(g.child_labels(&mid), strings(&["c"]));
    assert_eq!(g.ensure(&mid), EnsureOutcome::AlreadyExisted);
    let other = Path::build(strings(&["a", "d"])).unwrap();
    assert_eq!(g.ensure(&other), EnsureOutcome::Created);
    assert_eq!(g.child_labels(&root), strings(&["b", "d"]));
}

#[test]
fn ensure_of_a_root_path_creates_nothing() {
    let mut g = ContentGraph::new();
    let root = Path::build(strings(&["all_tags"])).unwrap();
    assert_eq!(g.ensure(&root), EnsureOutcome::AlreadyExisted);
    assert!(g.child_labels(&root).is_empty());
}

#[test]
fn attach_twice_keeps_one_edge() {
    let mut g = ContentGraph::new();
    let h = g.put("body".to_string());
    let p = Path::build(strings(&["n"])).unwrap();
    g.attach(&p, h);
    g.attach(&p, h);
    assert_eq!(g.targets_at(&p), vec![h]);
}

#[test]
fn invalid_tags_are_refused_before_anything_is_written() {
    let mut g = ContentGraph::new();
    assert_eq!(
        create_post(&mut g, &at(2023, 5, 1, 10), input("dotted", &["ok", "a.b"])),
        Err(IndexError::InvalidComponent)
    );
    assert_eq!(
        create_post(&mut g, &at(2023, 5, 1, 10), input("empty", &[""])),
        Err(IndexError::InvalidComponent)
    );
    assert!(get_all_tags(&g).0.is_empty());
    assert!(get_posts_by_time(&g, by_time(2023, 5, 1, None)).0.is_empty());
    assert_eq!(g.get(ContentHash(0)), None);
}

#[test]
fn tag_query_refuses_invalid_tags() {
    let g = ContentGraph::new();
    assert_eq!(get_posts_by_tag(&g, GetPostsByTagInput("".to_string())), Err(IndexError::InvalidComponent));
    assert_eq!(get_posts_by_tag(&g, GetPostsByTagInput("a.b".to_string())), Err(IndexError::InvalidComponent));
    assert_eq!(get_posts_by_tag(&g, GetPostsByTagInput("ab".to_string())).unwrap().0, vec![]);
}

#[test]
fn post_without_tags_is_only_in_its_hour() {
    let mut g = ContentGraph::new();
    create_post(&mut g, &at(2023, 5, 1, 10), input("plain", &[])).unwrap();
    assert!(get_all_tags(&g).0.is_empty());
    assert_eq!(bodies(get_posts_by_time(&g, by_time(2023, 5, 1, Some(10))).0), strings(&["plain"]));
}

#[test]
fn equal_bodies_share_an_address() {
    let mut g = ContentGraph::new();
    let a = g.put("x".to_string());
    let b = g.put("y".to_string());
    let c = g.put("x".to_string());
    assert_eq!(a, c);
    assert_ne!(a, b);
    assert_eq!(g.get(b), Some("y".to_string()));
    assert_eq!(g.get(ContentHash(2)), None);
}

#[test]
fn path_build_rejects_bad_components() {
    assert_eq!(Path::build(vec![]).unwrap_err(), IndexError::InvalidComponent);
    assert_eq!(Path::build(strings(&["a", ""])).unwrap_err(), IndexError::InvalidComponent);
    assert_eq!(Path::build(strings(&["a", "b.c"])).unwrap_err(), IndexError::InvalidComponent);
    assert!(Path::build(strings(&["a", "b-c", "ünï"])).is_ok());
}

#[test]
fn path_parent_and_last_component() {
    let p = Path::build(strings(&["all_posts", "2023-5-1", "10"])).unwrap();
    assert_eq!(p.len(), 3);
    assert_eq!(p.last_component(), "10");
    let q = p.parent().unwrap();
    assert_eq!(q.len(), 2);
    assert_eq!(q.last_component(), "2023-5-1");
    let r = q.parent().unwrap();
    assert_eq!(r.last_component(), "all_posts");
    assert!(r.parent().is_none());
    assert!(p.prefix(2).same(&q));
    assert!(!p.same(&q));
}

#[test]
fn time_paths_use_plain_decimal() {
    let p = Path::for_hour(2023, 5, 1, 10);
    assert_eq!(p.component(0), "all_posts");
    assert_eq!(p.component(1), "2023-5-1");
    assert_eq!(p.component(2), "10");
    let d = Path::for_calendar_day(-44, 3, 15);
    assert_eq!(d.component(1), "-44-3-15");
    let h = Path::for_calendar_hour(1999, 12, 31, 0);
    assert_eq!(h.component(1), "1999-12-31");
    assert_eq!(h.component(2), "0");
    let t = Path::for_tag(&"rust".to_string()).unwrap();
    assert_eq!(t.component(0), "all_tags");
    assert_eq!(t.component(1), "rust");
    assert!(Path::tags_root().same(&Path::build(strings(&["all_tags"])).unwrap()));
}

#[test]
fn instant_from_timestamp() {
    assert_eq!(UtcInstant::from_timestamp(1682935200), Ok(at(2023, 5, 1, 10)));
    assert_eq!(UtcInstant::from_timestamp(1682938799), Ok(at(2023, 5, 1, 10)));
    assert_eq!(UtcInstant::from_timestamp(0), Ok(at(1970, 1, 1, 0)));
    assert_eq!(UtcInstant::from_timestamp(-1), Ok(at(1969, 12, 31, 23)));
    assert_eq!(UtcInstant::from_timestamp(951782400), Ok(at(2000, 2, 29, 0)));
    assert_eq!(UtcInstant::from_timestamp(i64::MAX), Err(IndexError::ClockUnavailable));
}

#[test]
fn post_at_a_timestamp_lands_in_its_hour() {
    let mut g = ContentGraph::new();
    let now = UtcInstant::from_timestamp(1682935200 + 59 * 60).unwrap();
    create_post(&mut g, &now, input("late", &[])).unwrap();
    assert_eq!(bodies(get_posts_by_time(&g, by_time(2023, 5, 1, Some(10))).0), strings(&["late"]));
}

#[test]
fn path_text_round_trip() {
    let p = Path::for_hour(2023, 5, 1, 10);
    let text = p.to_text();
    assert_eq!(text, "all_posts.2023-5-1.10");
    let q = Path::parse(&text).unwrap();
    assert!(q.same(&p));
    let single = Path::parse(&"all_tags".to_string()).unwrap();
    assert_eq!(single.len(), 1);
    assert_eq!(single.to_text(), "all_tags");
}

#[test]
fn path_parse_rejects_empty_components() {
    for bad in ["", ".", ".a", "a.", "a..b", "a.b..", "..a"] {
        assert_eq!(Path::parse(&bad.to_string()).unwrap_err(), IndexError::InvalidComponent, "{}", bad);
    }
    let ok = Path::parse(&"a.bb.ccc".to_string()).unwrap();
    assert_eq!(ok.component(0), "a");
    assert_eq!(ok.component(1), "bb");
    assert_eq!(ok.component(2), "ccc");
}

#[test]
fn same_body_twice_in_one_hour_is_listed_once() {
    let mut g = ContentGraph::new();
    create_post(&mut g, &at(2023, 5, 1, 10), input("again", &["t"])).unwrap();
    create_post(&mut g, &at(2023, 5, 1, 10), input("again", &["t"])).unwrap();
    assert_eq!(bodies(get_posts_by_time(&g, by_time(2023, 5, 1, Some(10))).0), strings(&["again"]));
    assert_eq!(bodies(get_posts_by_time(&g, by_time(2023, 5, 1, None)).0), strings(&["again"]));
    assert_eq!(tag_posts(&g, "t"), strings(&["again"]));
}

#[test]
fn instant_exists_across_the_promised_range() {
    assert!(UtcInstant::from_timestamp(8_000_000_000_000).is_ok());
    assert!(UtcInstant::from_timestamp(-8_000_000_000_000).is_ok());
    let late = UtcInstant::from_timestamp(1682938799).unwrap();
    let next = UtcInstant::from_timestamp(1682938800).unwrap();
    assert_eq!(late.hour, 10);
    assert_eq!(next.hour, 11);
    assert_eq!((late.year, late.month, late.day), (next.year, next.month, next.day));
}
