//! Posts indexed by hour and by tag: writing a post and the queries over it.
use crate::clock::UtcInstant;
use crate::graph::{addresses, chain_link, ContentGraph, ContentHash, GraphModel};
use crate::path::{
    day_path_view, hour_path_view, tag_path_view, tags_root_view, IndexError, Path,
};
use crate::text::{is_valid_component, texts, valid_component};
use vstd::prelude::*;

verus! {

/// A post: an immutable text body.
#[derive(Clone, Debug, PartialEq, Eq)]
pub struct Post(pub String);

/// Posts that a query found.
#[derive(Clone, Debug, PartialEq, Eq)]
pub struct GetPostsOutput(pub Vec<Post>);

/// A post to write, with its tags.
#[derive(Clone, Debug)]
pub struct CreateTaskInput {
    pub content: String,
    pub tags: Vec<String>,
}

/// A time query: a whole day, or one hour of it.
#[derive(Clone, Debug)]
pub struct GetPostsByTimeInput {
    pub year: usize,
    pub month: usize,
    pub day: usize,
    pub hour: Option<usize>,
}

/// Every tag that some post carries.
#[derive(Clone, Debug, PartialEq, Eq)]
pub struct GetTagsOutput(pub Vec<String>);

/// A tag query.
#[derive(Clone, Debug)]
pub struct GetPostsByTagInput(pub String);

/// The bodies of a list of posts.
pub open spec fn contents(v: Seq<Post>) -> Seq<Seq<char>> {
    v.map_values(|p: Post| p.0@)
}

/// The hour bucket that a post written at `now` goes to.
pub open spec fn bucket_of(now: UtcInstant) -> Seq<Seq<char>> {
    hour_path_view(now.year as int, now.month as int, now.day as int, now.hour as int)
}

/// A post with body `p` is in the bucket of hour `h` of the given day.
pub open spec fn in_hour(g: GraphModel, y: int, m: int, d: int, h: int, p: Seq<char>) -> bool {
    g.indexed_at(hour_path_view(y, m, d, h), p)
}

/// A post with body `p` is in some bucket under the given day's node.
pub open spec fn in_day(g: GraphModel, y: int, m: int, d: int, p: Seq<char>) -> bool {
    exists|l: Seq<char>| #[trigger] g.has_link(day_path_view(y, m, d), l) && g.indexed_at(day_path_view(y, m, d).push(l), p)
}

/// `w` pairs each post of `r`, in order, with the hour label and record
/// address of the content edge it came from, and names every content edge
/// of an hour bucket linked under the day exactly once.
pub open spec fn day_listing(g: GraphModel, y: int, m: int, d: int, r: Seq<Post>, w: Seq<(Seq<char>, nat)>) -> bool {
    let day = day_path_view(y, m, d);
    &&& w.len() == r.len()
    &&& w.no_duplicates()
    &&& forall|k: int| 0 <= k < w.len() ==> {
        &&& g.has_link(day, (#[trigger] w[k]).0)
        &&& g.has_target(day.push(w[k].0), w[k].1)
        &&& w[k].1 < g.records.len()
        &&& contents(r)[k] == g.records[w[k].1 as int]
    }
    &&& forall|l: Seq<char>, h: nat| #[trigger] g.has_link(day, l) && #[trigger] g.has_target(day.push(l), h) ==> w.contains((l, h))
}

/// A post with body `p` carries tag `t`.
pub open spec fn tagged(g: GraphModel, t: Seq<char>, p: Seq<char>) -> bool {
    g.indexed_at(tag_path_view(t), p)
}

/// Tag `t` has a bucket under the tags root.
pub open spec fn tag_known(g: GraphModel, t: Seq<char>) -> bool {
    g.has_link(tags_root_view(), t)
}

/// `g1` is `g0` after writing a post with body `content` and tags `tags` at
/// `now`, stored at address `h`: the record is stored (once), the chains of
/// its hour bucket and of each tag bucket exist, and a content edge leads from
/// each of these buckets to the record; nothing else changed.
pub open spec fn post_written(
    g0: GraphModel,
    g1: GraphModel,
    now: UtcInstant,
    content: Seq<char>,
    tags: Seq<Seq<char>>,
    h: nat,
) -> bool {
    &&& h < g1.records.len()
    &&& g1.records[h as int] == content
    &&& g0.records.contains(content) ==> g1.records == g0.records
    &&& !g0.records.contains(content) ==> g1.records == g0.records.push(content)
    &&& forall|e| #[trigger] g1.links.contains(e) <==> (g0.links.contains(e) || chain_link(bucket_of(now), e)
        || exists|k: int| 0 <= k < tags.len() && chain_link(tag_path_view(#[trigger] tags[k]), e))
    &&& forall|e| #[trigger] g1.targets.contains(e) <==> (g0.targets.contains(e) || e == (bucket_of(now), h)
        || exists|k: int| 0 <= k < tags.len() && e == (tag_path_view(#[trigger] tags[k]), h))
}

/// The posts stored at the given addresses, in the same order.
fn resolve(graph: &ContentGraph, hashes: &Vec<ContentHash>) -> (r: Vec<Post>)
    requires
        forall|k: int| 0 <= k < hashes@.len() ==> (#[trigger] hashes@[k]).0 < graph@.records.len(),
    ensures
        r@.len() == hashes@.len(),
        forall|k: int| 0 <= k < r@.len() ==> (#[trigger] contents(r@)[k]) == graph@.records[hashes@[k].0 as int],
{
    let mut r: Vec<Post> = Vec::new();
    let mut i: usize = 0;
    while i < hashes.len()
        invariant
            i <= hashes.len(),
            r@.len() == i,
            forall|k: int| 0 <= k < hashes@.len() ==> (#[trigger] hashes@[k]).0 < graph@.records.len(),
            forall|k: int| 0 <= k < i ==> (#[trigger] contents(r@)[k]) == graph@.records[hashes@[k].0 as int],
        decreases hashes.len() - i,
    {
        let ghost before = r@;
        match graph.get(hashes[i]) {
            Some(s) => {
                let ghost sv = s@;
                r.push(Post(s));
                assert(contents(r@) =~= contents(before).push(sv));
            },
            None => {
                assert(false);
            },
        }
        i = i + 1;
    }
    r
}

/// The posts whose content edges leave `node`, each once.
fn posts_at(graph: &ContentGraph, node: &Path) -> (r: Vec<Post>)
    ensures
        contents(r@).no_duplicates(),
        forall|p| #[trigger] contents(r@).contains(p) <==> graph@.indexed_at(node@, p),
{
    graph.reveal_wf();
    let hashes = graph.targets_at(node);
    let r = resolve(graph, &hashes);
    proof {
        let cs = contents(r@);
        let g = graph@;
        assert forall|a: int, b: int| 0 <= a < cs.len() && 0 <= b < cs.len() && a != b implies cs[a] != cs[b] by {
            assert(addresses(hashes@)[a] != addresses(hashes@)[b]);
        }
        assert forall|p| #[trigger] cs.contains(p) <==> g.indexed_at(node@, p) by {
            if cs.contains(p) {
                let k = choose|k: int| 0 <= k < cs.len() && cs[k] == p;
                let h = addresses(hashes@)[k];
                assert(addresses(hashes@).contains(h));
                assert(g.has_target(node@, h));
            }
            if g.indexed_at(node@, p) {
                let h = choose|h: nat| #[trigger] g.has_target(node@, h) && h < g.records.len() && g.records[h as int] == p;
                assert(addresses(hashes@).contains(h));
                let k = choose|k: int| 0 <= k < addresses(hashes@).len() && addresses(hashes@)[k] == h;
                assert(cs[k] == p);
            }
        }
    }
    r
}

/// Writes a post: stores its body, then indexes it under the bucket of the
/// hour `now` and under the bucket of each tag. A tag that is empty or holds
/// the separator `.` refuses the whole post with `InvalidComponent`, before
/// anything is written. Returns the post's address.
pub fn create_post(graph: &mut ContentGraph, now: &UtcInstant, task_input: CreateTaskInput) -> (r: Result<ContentHash, IndexError>)
    ensures
        r is Ok <==> forall|k: int| 0 <= k < task_input.tags@.len() ==> valid_component(#[trigger] task_input.tags@[k]@),
        r matches Ok(h) ==> post_written(old(graph)@, final(graph)@, *now, task_input.content@, texts(task_input.tags@), h.0 as nat),
        r matches Err(e) ==> e == IndexError::InvalidComponent && final(graph)@ == old(graph)@,
{
    graph.reveal_wf();
    let CreateTaskInput { content, tags } = task_input;
    let mut i: usize = 0;
    while i < tags.len()
        invariant
            i <= tags.len(),
            tags@ == task_input.tags@,
            graph@ == old(graph)@,
            graph@.wf(),
            forall|k: int| 0 <= k < i ==> valid_component(#[trigger] tags@[k]@),
        decreases tags.len() - i,
    {
        if !is_valid_component(&tags[i]) {
            return Err(IndexError::InvalidComponent);
        }
        i = i + 1;
    }
    let ghost ts = texts(tags@);
    let h = graph.put(content);
    let bucket = Path::for_calendar_hour(now.year, now.month, now.day, now.hour);
    graph.ensure(&bucket);
    graph.attach(&bucket, h);
    graph.reveal_wf();
    let ghost g1 = graph@;
    let mut j: usize = 0;
    while j < tags.len()
        invariant
            graph@.wf(),
            j <= tags.len(),
            ts == texts(tags@),
            forall|k: int| 0 <= k < tags@.len() ==> valid_component(#[trigger] tags@[k]@),
            h.0 < graph@.records.len(),
            graph@.records == g1.records,
            forall|e| #[trigger] graph@.links.contains(e) <==> (g1.links.contains(e)
                || exists|k: int| 0 <= k < j && chain_link(tag_path_view(#[trigger] ts[k]), e)),
            forall|e| #[trigger] graph@.targets.contains(e) <==> (g1.targets.contains(e)
                || exists|k: int| 0 <= k < j && e == (tag_path_view(#[trigger] ts[k]), h.0 as nat)),
        decreases tags.len() - j,
    {
        let bucket = match Path::for_tag(&tags[j]) {
            Ok(p) => p,
            Err(_) => {
                assert(false);
                return Err(IndexError::InvalidComponent);
            },
        };
        let ghost ga = graph@;
        assert(ts[j as int] == tags@[j as int]@);
        graph.ensure(&bucket);
        graph.attach(&bucket, h);
        graph.reveal_wf();
        proof {
            let gb = graph@;
            assert forall|e| #[trigger] gb.links.contains(e) <==> (g1.links.contains(e)
                || exists|k: int| 0 <= k < j + 1 && chain_link(tag_path_view(#[trigger] ts[k]), e)) by {
                if exists|k: int| 0 <= k < j + 1 && chain_link(tag_path_view(#[trigger] ts[k]), e) {
                    let k = choose|k: int| 0 <= k < j + 1 && chain_link(tag_path_view(#[trigger] ts[k]), e);
                    if k < j {
                        assert(ga.links.contains(e));
                    }
                }
                if ga.links.contains(e) && !g1.links.contains(e) {
                    let k = choose|k: int| 0 <= k < j && chain_link(tag_path_view(#[trigger] ts[k]), e);
                    assert(0 <= k < j + 1);
                }
            }
            assert forall|e| #[trigger] gb.targets.contains(e) <==> (g1.targets.contains(e)
                || exists|k: int| 0 <= k < j + 1 && e == (tag_path_view(#[trigger] ts[k]), h.0 as nat)) by {
                if exists|k: int| 0 <= k < j + 1 && e == (tag_path_view(#[trigger] ts[k]), h.0 as nat) {
                    let k = choose|k: int| 0 <= k < j + 1 && e == (tag_path_view(#[trigger] ts[k]), h.0 as nat);
                    if k < j {
                        assert(ga.targets.contains(e));
                    }
                }
                if ga.targets.contains(e) && !g1.targets.contains(e) {
                    let k = choose|k: int| 0 <= k < j && e == (tag_path_view(#[trigger] ts[k]), h.0 as nat);
                    assert(0 <= k < j + 1);
                }
            }
        }
        j = j + 1;
    }
    Ok(h)
}

/// Posts by time. With an hour: the posts in that hour's bucket, each once.
/// Without: the posts in every hour bucket of the day, bucket after bucket.
pub fn get_posts_by_time(graph: &ContentGraph, input: GetPostsByTimeInput) -> (r: GetPostsOutput)
    ensures
        input.hour matches Some(h) ==> contents(r.0@).no_duplicates() && forall|p| #[trigger] contents(r.0@).contains(p)
            <==> in_hour(graph@, input.year as int, input.month as int, input.day as int, h as int, p),
        input.hour is None ==> forall|p| #[trigger] contents(r.0@).contains(p)
            <==> in_day(graph@, input.year as int, input.month as int, input.day as int, p),
        input.hour is None ==> exists|w| #[trigger] day_listing(graph@, input.year as int, input.month as int, input.day as int, r.0@, w),
{
    graph.reveal_wf();
    let found = match input.hour {
        Some(h) => {
            let bucket = Path::for_hour(input.year as u64, input.month as u64, input.day as u64, h as u64);
            posts_at(graph, &bucket)
        },
        None => posts_by_day(graph, input.year, input.month, input.day),
    };
    let out = GetPostsOutput(found);
    proof {
        let (y, m, d) = (input.year as int, input.month as int, input.day as int);
        if input.hour is None {
            let w = choose|w| #[trigger] day_listing(graph@, y, m, d, found@, w);
            assert(out.0@ == found@);
            assert(day_listing(graph@, y, m, d, out.0@, w));
        }
    }
    out
}

fn posts_by_day(graph: &ContentGraph, year: usize, month: usize, day: usize) -> (r: Vec<Post>)
    ensures
        exists|w| #[trigger] day_listing(graph@, year as int, month as int, day as int, r@, w),
        forall|p| #[trigger] contents(r@).contains(p) <==> in_day(graph@, year as int, month as int, day as int, p),
{
    graph.reveal_wf();
    let ghost (y, m, d) = (year as int, month as int, day as int);
    let day_node = Path::for_day(year as u64, month as u64, day as u64);
    let hours = graph.child_labels(&day_node);
    let ghost g = graph@;
    let ghost dv = day_node@;
    let mut r: Vec<Post> = Vec::new();
    let ghost mut w: Seq<(Seq<char>, nat)> = Seq::empty();
    let ghost mut wi: Seq<int> = Seq::empty();
    let mut i: usize = 0;
    while i < hours.len()
        invariant
            g == graph@,
            g.wf(),
            i <= hours.len(),
            dv == day_node@,
            dv == day_path_view(y, m, d),
            texts(hours@).no_duplicates(),
            forall|l| #[trigger] texts(hours@).contains(l) <==> g.has_link(dv, l),
            w.len() == r@.len(),
            wi.len() == w.len(),
            w.no_duplicates(),
            forall|k: int| 0 <= k < w.len() ==> {
                &&& 0 <= #[trigger] wi[k] < i
                &&& w[k].0 == texts(hours@)[wi[k]]
            },
            forall|k: int| 0 <= k < w.len() ==> {
                &&& g.has_link(dv, (#[trigger] w[k]).0)
                &&& g.has_target(dv.push(w[k].0), w[k].1)
                &&& w[k].1 < g.records.len()
                &&& contents(r@)[k] == g.records[w[k].1 as int]
            },
            forall|a: int, h: nat| 0 <= a < i && #[trigger] g.has_target(dv.push(texts(hours@)[a]), h)
                ==> w.contains((texts(hours@)[a], h)),
        decreases hours.len() - i,
    {
        let ghost l = texts(hours@)[i as int];
        let bucket = day_node.child(hours[i].clone());
        assert(bucket@ == dv.push(l));
        assert(texts(hours@).contains(l));
        let hashes = graph.targets_at(&bucket);
        let found = resolve(graph, &hashes);
        let ghost wb = w;
        let ghost rb = r@;
        let mut k: usize = 0;
        while k < found.len()
            invariant
                g == graph@,
                g.wf(),
                dv == day_path_view(y, m, d),
                texts(hours@).no_duplicates(),
                i < hours@.len(),
                l == texts(hours@)[i as int],
                g.has_link(dv, l),
                bucket@ == dv.push(l),
                k <= found@.len(),
                found@.len() == hashes@.len(),
                forall|j: int| 0 <= j < found@.len() ==> (#[trigger] contents(found@)[j]) == g.records[hashes@[j].0 as int],
                forall|j: int| 0 <= j < hashes@.len() ==> (#[trigger] hashes@[j]).0 < g.records.len(),
                addresses(hashes@).no_duplicates(),
                forall|h| #[trigger] addresses(hashes@).contains(h) <==> g.has_target(bucket@, h),
                w.len() == r@.len(),
                wi.len() == w.len(),
                w.len() == wb.len() + k,
                rb.len() == wb.len(),
                forall|j: int| 0 <= j < wb.len() ==> w[j] == wb[j] && contents(r@)[j] == contents(rb)[j],
                forall|j: int| 0 <= j < k ==> w[wb.len() + j] == (l, addresses(hashes@)[j]),
                wb.no_duplicates(),
                forall|j: int| 0 <= j < wb.len() ==> {
                    &&& 0 <= #[trigger] wi[j] < i
                    &&& wb[j].0 == texts(hours@)[wi[j]]
                },
                forall|j: int| wb.len() <= j < w.len() ==> #[trigger] wi[j] == i,
                w.no_duplicates(),
                forall|j: int| 0 <= j < w.len() ==> {
                    &&& g.has_link(dv, (#[trigger] w[j]).0)
                    &&& g.has_target(dv.push(w[j].0), w[j].1)
                    &&& w[j].1 < g.records.len()
                    &&& contents(r@)[j] == g.records[w[j].1 as int]
                },
            decreases found@.len() - k,
        {
            let ghost mid = r@;
            let ghost wm = w;
            r.push(Post(found[k].0.clone()));
            proof {
                let e = (l, addresses(hashes@)[k as int]);
                assert(contents(r@) =~= contents(mid).push(contents(found@)[k as int]));
                assert(addresses(hashes@).contains(e.1));
                assert forall|j: int| 0 <= j < wm.len() implies wm[j] != e by {
                    if j < wb.len() {
                        let a = wi[j];
                        assert(texts(hours@)[a] != texts(hours@)[i as int]);
                    } else {
                        let q = j - wb.len();
                        assert(addresses(hashes@)[q] != addresses(hashes@)[k as int]);
                    }
                }
                w = wm.push(e);
                wi = wi.push(i as int);
                assert forall|a: int, b: int| 0 <= a < w.len() && 0 <= b < w.len() && a != b implies w[a] != w[b] by {
                    if a < wm.len() && b < wm.len() {
                        assert(w[a] == wm[a] && w[b] == wm[b]);
                    }
                }
            }
            k = k + 1;
        }
        proof {
            assert forall|a: int, h: nat| 0 <= a < i + 1 && #[trigger] g.has_target(dv.push(texts(hours@)[a]), h)
                implies w.contains((texts(hours@)[a], h)) by {
                if a < i {
                    assert(wb.contains((texts(hours@)[a], h)));
                    let j = choose|j: int| 0 <= j < wb.len() && wb[j] == (texts(hours@)[a], h);
                    assert(w[j] == wb[j]);
                } else {
                    assert(addresses(hashes@).contains(h));
                    let q = choose|q: int| 0 <= q < addresses(hashes@).len() && addresses(hashes@)[q] == h;
                    assert(w[wb.len() + q] == (l, h));
                }
            }
            assert forall|x: int| 0 <= x < w.len() implies {
                &&& 0 <= #[trigger] wi[x] < i + 1
                &&& w[x].0 == texts(hours@)[wi[x]]
            } by {
                if x < wb.len() {
                    assert(w[x] == wb[x]);
                } else {
                    assert(wi[x] == i);
                    let q = x - wb.len();
                    assert(0 <= q < k);
                    assert(w[wb.len() + q] == (l, addresses(hashes@)[q]));
                }
            }
        }
        i = i + 1;
    }
    proof {
        assert forall|l: Seq<char>, h: nat| #[trigger] g.has_link(dv, l) && #[trigger] g.has_target(dv.push(l), h)
            implies w.contains((l, h)) by {
            assert(texts(hours@).contains(l));
            let a = choose|a: int| 0 <= a < texts(hours@).len() && texts(hours@)[a] == l;
            assert(g.has_target(dv.push(texts(hours@)[a]), h));
        }
        assert(day_listing(g, y, m, d, r@, w));
        assert forall|p| #[trigger] contents(r@).contains(p) <==> in_day(g, y, m, d, p) by {
            if contents(r@).contains(p) {
                let k = choose|k: int| 0 <= k < contents(r@).len() && contents(r@)[k] == p;
                assert(g.has_link(dv, w[k].0));
                assert(g.has_target(dv.push(w[k].0), w[k].1));
                assert(g.indexed_at(dv.push(w[k].0), p));
            }
            if in_day(g, y, m, d, p) {
                let l = choose|l: Seq<char>| #[trigger] g.has_link(dv, l) && g.indexed_at(dv.push(l), p);
                let h = choose|h: nat| #[trigger] g.has_target(dv.push(l), h) && h < g.records.len() && g.records[h as int] == p;
                assert(w.contains((l, h)));
                let k = choose|k: int| 0 <= k < w.len() && w[k] == (l, h);
                assert(contents(r@)[k] == p);
            }
        }
    }
    r
}

/// Every tag that some post carries, each once.
pub fn get_all_tags(graph: &ContentGraph) -> (r: GetTagsOutput)
    ensures
        texts(r.0@).no_duplicates(),
        forall|t| #[trigger] texts(r.0@).contains(t) <==> tag_known(graph@, t),
{
    graph.reveal_wf();
    let root = Path::tags_root();
    GetTagsOutput(graph.child_labels(&root))
}

/// The posts that carry a tag, each once, or `InvalidComponent` when the tag
/// is empty or holds the separator `.`.
pub fn get_posts_by_tag(graph: &ContentGraph, input: GetPostsByTagInput) -> (r: Result<GetPostsOutput, IndexError>)
    ensures
        r is Ok <==> valid_component(input.0@),
        r matches Ok(out) ==> contents(out.0@).no_duplicates() && forall|p| #[trigger] contents(out.0@).contains(p)
            <==> tagged(graph@, input.0@, p),
        r matches Err(e) ==> e == IndexError::InvalidComponent,
{
    graph.reveal_wf();
    let bucket = Path::for_tag(&input.0)?;
    Ok(GetPostsOutput(posts_at(graph, &bucket)))
}

} // verus!
