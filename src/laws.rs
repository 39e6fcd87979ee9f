//! What holds across operations of the index.
use crate::clock::{day_number, hour_of_day, UtcInstant};
use crate::graph::{chain_link, GraphModel};
use crate::path::{join, has_empty_segment, lemma_join_has_no_empty_segment, lemma_join_injective, day_path_view, hour_path_view, tag_path_view, tags_root_view, posts_root_text, lemma_time_components_valid};
use crate::posts::{bucket_of, in_day, in_hour, post_written, tag_known, tagged};
use crate::text::{all_valid, digits, int_text, lemma_digits_injective};
use vstd::prelude::*;

verus! {

/// After a post is written, a query by any of its tags finds it.
pub proof fn lemma_round_trip(
    g0: GraphModel,
    g1: GraphModel,
    now: UtcInstant,
    content: Seq<char>,
    tags: Seq<Seq<char>>,
    h: nat,
    t: Seq<char>,
)
    requires
        post_written(g0, g1, now, content, tags, h),
        tags.contains(t),
    ensures
        tagged(g1, t, content),
{
    let k = choose|k: int| 0 <= k < tags.len() && tags[k] == t;
    let e = (tag_path_view(tags[k]), h);
    assert(g1.targets.contains(e));
    assert(g1.has_target(tag_path_view(t), h));
}

/// A post written at hour `H` of a day is found in that hour's bucket and in
/// no other hour bucket of the day, unless a post with the same body was
/// already there.
pub proof fn lemma_time_exactness(
    g0: GraphModel,
    g1: GraphModel,
    now: UtcInstant,
    content: Seq<char>,
    tags: Seq<Seq<char>>,
    h: nat,
    other: nat,
)
    requires
        g0.wf(),
        post_written(g0, g1, now, content, tags, h),
        other != now.hour,
        !in_hour(g0, now.year as int, now.month as int, now.day as int, other as int, content),
    ensures
        in_hour(g1, now.year as int, now.month as int, now.day as int, now.hour as int, content),
        !in_hour(g1, now.year as int, now.month as int, now.day as int, other as int, content),
{
    let (y, m, d) = (now.year as int, now.month as int, now.day as int);
    assert(g1.targets.contains((bucket_of(now), h)));
    assert(g1.has_target(bucket_of(now), h));
    let node = hour_path_view(y, m, d, other as int);
    if in_hour(g1, y, m, d, other as int, content) {
        let h1 = choose|h1: nat| #[trigger] g1.has_target(node, h1) && h1 < g1.records.len() && g1.records[h1 as int] == content;
        let e = (node, h1);
        assert(g1.targets.contains(e));
        if g0.targets.contains(e) {
            let j = choose|j: int| 0 <= j < g0.targets.len() && g0.targets[j] == e;
            assert(h1 < g0.records.len());
            assert(g0.records[h1 as int] == g1.records[h1 as int]);
            assert(g0.has_target(node, h1));
            assert(in_hour(g0, y, m, d, other as int, content));
        } else if e == (bucket_of(now), h) {
            assert(node[2] == bucket_of(now)[2]);
            assert(digits(other) == digits(now.hour as nat));
            lemma_digits_injective(other, now.hour as nat);
        } else {
            let k = choose|k: int| 0 <= k < tags.len() && e == (tag_path_view(#[trigger] tags[k]), h);
            assert(node.len() == 3);
        }
    }
}

/// A day's posts are the union of the posts of its hours, wherever each
/// bucket under the day is an hour's bucket and every hour bucket that holds
/// posts is linked under its day.
pub proof fn lemma_day_is_union_of_hours(g: GraphModel, y: int, m: int, d: int, p: Seq<char>)
    requires
        forall|l: Seq<char>| #[trigger] g.has_link(day_path_view(y, m, d), l)
            ==> exists|h: usize| l == int_text(h as int),
        forall|h: usize| #[trigger] in_hour(g, y, m, d, h as int, p)
            ==> g.has_link(day_path_view(y, m, d), int_text(h as int)),
    ensures
        in_day(g, y, m, d, p) <==> exists|h: usize| #[trigger] in_hour(g, y, m, d, h as int, p),
{
    let day = day_path_view(y, m, d);
    if in_day(g, y, m, d, p) {
        let l = choose|l: Seq<char>| #[trigger] g.has_link(day, l) && g.indexed_at(day.push(l), p);
        let h = choose|h: usize| l == int_text(h as int);
        assert(hour_path_view(y, m, d, h as int) == day.push(l));
        assert(in_hour(g, y, m, d, h as int, p));
    }
    if exists|h: usize| #[trigger] in_hour(g, y, m, d, h as int, p) {
        let h = choose|h: usize| #[trigger] in_hour(g, y, m, d, h as int, p);
        let l = int_text(h as int);
        assert(g.has_link(day, l));
        assert(hour_path_view(y, m, d, h as int) == day.push(l));
    }
}

/// Writing a post makes each of its tags known, and keeps every tag that
/// was known before.
pub proof fn lemma_written_tags_known(
    g0: GraphModel,
    g1: GraphModel,
    now: UtcInstant,
    content: Seq<char>,
    tags: Seq<Seq<char>>,
    h: nat,
    t: Seq<char>,
)
    requires
        post_written(g0, g1, now, content, tags, h),
        tags.contains(t) || tag_known(g0, t),
    ensures
        tag_known(g1, t),
{
    let e = (tags_root_view(), t);
    if tags.contains(t) {
        let k = choose|k: int| 0 <= k < tags.len() && tags[k] == t;
        let path = tag_path_view(tags[k]);
        assert(path.subrange(0, 1) == tags_root_view());
        assert(chain_link(path, (path.subrange(0, 1), path[1])));
    }
    assert(g1.links.contains(e));
}

/// A listing of the known tags without repeats holds each known tag exactly
/// once, however many posts carry it.
pub proof fn lemma_tag_listed_once(g: GraphModel, listing: Seq<Seq<char>>, t: Seq<char>)
    requires
        listing.no_duplicates(),
        forall|l| #[trigger] listing.contains(l) <==> tag_known(g, l),
        tag_known(g, t),
    ensures
        listing.to_multiset().count(t) == 1,
{
    broadcast use vstd::seq_lib::to_multiset_contains;
    listing.lemma_multiset_has_no_duplicates();
    assert(listing.contains(t));
}

/// Ensuring a path twice leaves the same structural edges as ensuring it
/// once, and after the first time every edge of the chain exists.
pub proof fn lemma_ensure_idempotent(g0: GraphModel, g1: GraphModel, g2: GraphModel, path: Seq<Seq<char>>)
    requires
        forall|e| #[trigger] g1.links.contains(e) <==> g0.links_after_ensure(path, e),
        forall|e| #[trigger] g2.links.contains(e) <==> g1.links_after_ensure(path, e),
    ensures
        g1.chain_exists(path),
        forall|e| #[trigger] g2.links.contains(e) <==> g1.links.contains(e),
{
    assert forall|e| chain_link(path, e) implies g1.links.contains(e) by {
        assert(g0.links_after_ensure(path, e));
    }
    assert forall|e| #[trigger] g2.links.contains(e) <==> g1.links.contains(e) by {
        if chain_link(path, e) {
            assert(g1.links.contains(e));
        }
    }
}

/// A path's text parses, and the only well-formed path with that text is the
/// path itself.
pub proof fn lemma_text_round_trip(p: Seq<Seq<char>>, q: Seq<Seq<char>>)
    requires
        p.len() > 0,
        all_valid(p),
        q.len() > 0,
        all_valid(q),
        join(q) == join(p),
    ensures
        !has_empty_segment(join(p)),
        q == p,
{
    lemma_join_has_no_empty_segment(p);
    lemma_join_injective(q, p);
}

/// Every structural edge out of a day node is labelled with an hour's text,
/// and every hour bucket that holds a content edge is linked under its day.
/// The empty graph has this shape, and writing posts keeps it.
pub open spec fn hours_linked(g: GraphModel) -> bool {
    &&& forall|n: Seq<Seq<char>>, l: Seq<char>| #[trigger] g.links.contains((n, l)) && n.len() == 2 && n[0] == posts_root_text()
        ==> exists|h: usize| l == int_text(h as int)
    &&& forall|n: Seq<Seq<char>>, x: nat| #[trigger] g.targets.contains((n, x)) && n.len() == 3 && n[0] == posts_root_text()
        ==> g.links.contains((n.drop_last(), n[2]))
}

/// A graph with no edges has the shape of `hours_linked`.
pub proof fn lemma_empty_graph_hours_linked(g: GraphModel)
    requires
        g.links.len() == 0,
        g.targets.len() == 0,
    ensures
        hours_linked(g),
{
}

/// Writing a post keeps the shape of `hours_linked`.
pub proof fn lemma_write_keeps_hours_linked(
    g0: GraphModel,
    g1: GraphModel,
    now: UtcInstant,
    content: Seq<char>,
    tags: Seq<Seq<char>>,
    h: nat,
)
    requires
        hours_linked(g0),
        post_written(g0, g1, now, content, tags, h),
    ensures
        hours_linked(g1),
{
    let b = bucket_of(now);
    lemma_time_components_valid(now.year as int, now.month as int, now.day as int, now.hour as int);
    assert forall|n: Seq<Seq<char>>, l: Seq<char>| #[trigger] g1.links.contains((n, l)) && n.len() == 2 && n[0] == posts_root_text()
        implies exists|x: usize| l == int_text(x as int) by {
        let e = (n, l);
        if !g0.links.contains(e) {
            if chain_link(b, e) {
                let i = choose|i: int| 1 <= i < b.len() && e == (b.subrange(0, i), #[trigger] b[i]);
                assert(i == 2);
                let x = now.hour as usize;
                assert(l == int_text(x as int));
            } else {
                let k = choose|k: int| 0 <= k < tags.len() && chain_link(tag_path_view(#[trigger] tags[k]), e);
                let tp = tag_path_view(tags[k]);
                let i = choose|i: int| 1 <= i < tp.len() && e == (tp.subrange(0, i), #[trigger] tp[i]);
                assert(n.len() == 1);
            }
        }
    }
    assert forall|n: Seq<Seq<char>>, x: nat| #[trigger] g1.targets.contains((n, x)) && n.len() == 3 && n[0] == posts_root_text()
        implies g1.links.contains((n.drop_last(), n[2])) by {
        let e = (n, x);
        if g0.targets.contains(e) {
            assert(g0.links.contains((n.drop_last(), n[2])));
        } else if e == (b, h) {
            assert(b.subrange(0, 2) =~= n.drop_last());
            assert(chain_link(b, (b.subrange(0, 2), b[2])));
        } else {
            let k = choose|k: int| 0 <= k < tags.len() && e == (tag_path_view(#[trigger] tags[k]), h);
            assert(n.len() == 2);
        }
    }
}

/// In a graph of the shape `hours_linked`, a day's posts are the union of
/// the posts of its hours.
pub proof fn lemma_linked_day_is_union_of_hours(g: GraphModel, y: int, m: int, d: int, p: Seq<char>)
    requires
        hours_linked(g),
    ensures
        in_day(g, y, m, d, p) <==> exists|h: usize| #[trigger] in_hour(g, y, m, d, h as int, p),
{
    let day = day_path_view(y, m, d);
    lemma_time_components_valid(y, m, d, 0);
    assert forall|l: Seq<char>| #[trigger] g.has_link(day, l) implies exists|h: usize| l == int_text(h as int) by {
        assert(g.links.contains((day, l)));
    }
    assert forall|h: usize| #[trigger] in_hour(g, y, m, d, h as int, p) implies g.has_link(day, int_text(h as int)) by {
        let node = hour_path_view(y, m, d, h as int);
        let x = choose|x: nat| #[trigger] g.has_target(node, x) && x < g.records.len() && g.records[x as int] == p;
        assert(g.targets.contains((node, x)));
        assert(node.drop_last() =~= day);
    }
    lemma_day_is_union_of_hours(g, y, m, d, p);
}

/// Writing a post keeps every post where it was indexed, so a post stays
/// found by its tags and its hour however many posts are written after it.
pub proof fn lemma_write_keeps_indexed(
    g0: GraphModel,
    g1: GraphModel,
    now: UtcInstant,
    content: Seq<char>,
    tags: Seq<Seq<char>>,
    h: nat,
    node: Seq<Seq<char>>,
    p: Seq<char>,
)
    requires
        g0.wf(),
        post_written(g0, g1, now, content, tags, h),
        g0.indexed_at(node, p),
    ensures
        g1.indexed_at(node, p),
{
    let x = choose|x: nat| #[trigger] g0.has_target(node, x) && x < g0.records.len() && g0.records[x as int] == p;
    assert(g1.targets.contains((node, x)));
    assert(g1.has_target(node, x));
    assert(g1.records[x as int] == g0.records[x as int]);
}

/// Of two timestamps, the later one falls on the same day or a later day,
/// and within one day on the same hour or a later one; timestamps of one day
/// share its date.
pub proof fn lemma_timestamps_ordered(s1: int, s2: int)
    requires
        s1 <= s2,
    ensures
        day_number(s1) <= day_number(s2),
        day_number(s1) == day_number(s2) ==> hour_of_day(s1) <= hour_of_day(s2),
        0 <= hour_of_day(s1) < 24,
{
    assert(day_number(s1) <= day_number(s2)) by (nonlinear_arith)
        requires s1 <= s2;
    if day_number(s1) == day_number(s2) {
        assert(s1 % 86400 <= s2 % 86400) by (nonlinear_arith)
            requires s1 <= s2, s1 / 86400 == s2 / 86400;
        assert((s1 % 86400) / 3600 <= (s2 % 86400) / 3600) by (nonlinear_arith)
            requires s1 % 86400 <= s2 % 86400, 0 <= s1 % 86400;
    }
    assert(0 <= hour_of_day(s1) < 24) by (nonlinear_arith)
        requires 0 <= s1 % 86400 < 86400;
}

} // verus!
