//! An append-only content graph: records addressed by their content, structural
//! edges between path nodes, and content edges from path nodes to records.
use crate::path::Path;
use crate::text::texts;
use vstd::prelude::*;

verus! {

/// The address of a record in a `ContentGraph`. Equal contents share one
/// address.
#[derive(Clone, Copy, Debug, PartialEq, Eq, Structural)]
pub struct ContentHash(pub usize);

/// What `ensure` found: whether it had to create an edge or all were there.
#[derive(Clone, Copy, Debug, PartialEq, Eq, Structural)]
pub enum EnsureOutcome {
    Created,
    AlreadyExisted,
}

/// A structural edge from a parent node to the child labelled `label`.
#[derive(Debug)]
struct Link {
    parent: Path,
    label: String,
}

/// A content edge from a node to the record at `target`.
#[derive(Debug)]
struct Target {
    node: Path,
    target: usize,
}

/// The store and its link graph.
#[derive(Debug)]
pub struct ContentGraph {
    records: Vec<String>,
    links: Vec<Link>,
    targets: Vec<Target>,
}

/// The mathematical content of a `ContentGraph`.
pub ghost struct GraphModel {
    /// Record contents; a record's address is its position.
    pub records: Seq<Seq<char>>,
    /// Structural edges as (parent path, child label).
    pub links: Seq<(Seq<Seq<char>>, Seq<char>)>,
    /// Content edges as (node path, record address).
    pub targets: Seq<(Seq<Seq<char>>, nat)>,
}

/// The structural edges that make up the chain of `path`: from each proper
/// prefix of length at least one to the next component.
pub open spec fn chain_link(path: Seq<Seq<char>>, e: (Seq<Seq<char>>, Seq<char>)) -> bool {
    exists|i: int| 1 <= i < path.len() && e == (path.subrange(0, i), #[trigger] path[i])
}

impl GraphModel {
    /// Records are distinct, edges are never duplicated, and every content
    /// edge leads to a stored record.
    pub open spec fn wf(self) -> bool {
        &&& self.records.no_duplicates()
        &&& self.links.no_duplicates()
        &&& self.targets.no_duplicates()
        &&& forall|j: int| 0 <= j < self.targets.len() ==> (#[trigger] self.targets[j]).1 < self.records.len()
    }

    /// There is a structural edge labelled `label` out of `node`.
    pub open spec fn has_link(self, node: Seq<Seq<char>>, label: Seq<char>) -> bool {
        self.links.contains((node, label))
    }

    /// There is a content edge from `node` to the record at `h`.
    pub open spec fn has_target(self, node: Seq<Seq<char>>, h: nat) -> bool {
        self.targets.contains((node, h))
    }

    /// A record with content `p` is indexed at `node`.
    pub open spec fn indexed_at(self, node: Seq<Seq<char>>, p: Seq<char>) -> bool {
        exists|h: nat| #[trigger] self.has_target(node, h) && h < self.records.len() && self.records[h as int] == p
    }

    /// The edges of `path`'s chain are all present.
    pub open spec fn chain_exists(self, path: Seq<Seq<char>>) -> bool {
        forall|e| chain_link(path, e) ==> self.links.contains(e)
    }

    /// The edges after ensuring `path` from `self`: those there before and
    /// the chain of `path`.
    pub open spec fn links_after_ensure(self, path: Seq<Seq<char>>, e: (Seq<Seq<char>>, Seq<char>)) -> bool {
        self.links.contains(e) || chain_link(path, e)
    }
}

/// Addresses as numbers.
pub open spec fn addresses(v: Seq<ContentHash>) -> Seq<nat> {
    v.map_values(|h: ContentHash| h.0 as nat)
}

spec fn link_view(l: Link) -> (Seq<Seq<char>>, Seq<char>) {
    (l.parent@, l.label@)
}

spec fn target_view(t: Target) -> (Seq<Seq<char>>, nat) {
    (t.node@, t.target as nat)
}

impl View for ContentGraph {
    type V = GraphModel;

    closed spec fn view(&self) -> GraphModel {
        GraphModel {
            records: texts(self.records@),
            links: self.links@.map_values(|l: Link| link_view(l)),
            targets: self.targets@.map_values(|t: Target| target_view(t)),
        }
    }
}

impl ContentGraph {
    #[verifier::type_invariant]
    spec fn inv(&self) -> bool {
        self@.wf()
    }

    /// Brings the graph's well-formedness into a caller's proof context; it
    /// does nothing at run time.
    pub fn reveal_wf(&self)
        ensures
            self@.wf(),
    {
        proof {
            use_type_invariant(self);
        }
    }

    fn push_record(&mut self, content: String)
        requires
            !old(self)@.records.contains(content@),
        ensures
            final(self)@.records == old(self)@.records.push(content@),
            final(self)@.links == old(self)@.links,
            final(self)@.targets == old(self)@.targets,
    {
        proof {
            use_type_invariant(&*self);
        }
        let ghost before = self@;
        let mut taken = ContentGraph::new();
        std::mem::swap(&mut taken, self);
        let ContentGraph { mut records, links, targets } = taken;
        records.push(content);
        proof {
            let rs = texts(records@);
            assert(rs =~= before.records.push(content@));
            assert(links@.map_values(|l: Link| link_view(l)) =~= before.links);
            assert(targets@.map_values(|t: Target| target_view(t)) =~= before.targets);
            assert forall|a: int, b: int| 0 <= a < rs.len() && 0 <= b < rs.len() && a != b implies rs[a] != rs[b] by {
                if b == rs.len() - 1 {
                    assert(before.records[a] == rs[a]);
                } else if a == rs.len() - 1 {
                    assert(before.records[b] == rs[b]);
                } else {
                    assert(before.records[a] == rs[a] && before.records[b] == rs[b]);
                }
            }
        }
        let g = ContentGraph { records, links, targets };
        *self = g;
    }

    fn push_link(&mut self, l: Link)
        requires
            !old(self)@.links.contains(link_view(l)),
        ensures
            final(self)@.links == old(self)@.links.push(link_view(l)),
            final(self)@.records == old(self)@.records,
            final(self)@.targets == old(self)@.targets,
    {
        proof {
            use_type_invariant(&*self);
        }
        let ghost before = self@;
        let ghost e = link_view(l);
        let mut taken = ContentGraph::new();
        std::mem::swap(&mut taken, self);
        let ContentGraph { records, mut links, targets } = taken;
        links.push(l);
        proof {
            let ls = links@.map_values(|l: Link| link_view(l));
            assert(ls =~= before.links.push(e));
            assert(texts(records@) =~= before.records);
            assert(targets@.map_values(|t: Target| target_view(t)) =~= before.targets);
            assert forall|a: int, b: int| 0 <= a < ls.len() && 0 <= b < ls.len() && a != b implies ls[a] != ls[b] by {
                if b == ls.len() - 1 {
                    assert(before.links[a] == ls[a]);
                } else if a == ls.len() - 1 {
                    assert(before.links[b] == ls[b]);
                } else {
                    assert(before.links[a] == ls[a] && before.links[b] == ls[b]);
                }
            }
        }
        let g = ContentGraph { records, links, targets };
        *self = g;
    }

    fn push_target(&mut self, t: Target)
        requires
            !old(self)@.targets.contains(target_view(t)),
            t.target < old(self)@.records.len(),
        ensures
            final(self)@.targets == old(self)@.targets.push(target_view(t)),
            final(self)@.records == old(self)@.records,
            final(self)@.links == old(self)@.links,
    {
        proof {
            use_type_invariant(&*self);
        }
        let ghost before = self@;
        let ghost e = target_view(t);
        let mut taken = ContentGraph::new();
        std::mem::swap(&mut taken, self);
        let ContentGraph { records, links, mut targets } = taken;
        targets.push(t);
        proof {
            let ts = targets@.map_values(|t: Target| target_view(t));
            assert(ts =~= before.targets.push(e));
            assert(texts(records@) =~= before.records);
            assert(links@.map_values(|l: Link| link_view(l)) =~= before.links);
            assert forall|a: int, b: int| 0 <= a < ts.len() && 0 <= b < ts.len() && a != b implies ts[a] != ts[b] by {
                if b == ts.len() - 1 {
                    assert(before.targets[a] == ts[a]);
                } else if a == ts.len() - 1 {
                    assert(before.targets[b] == ts[b]);
                } else {
                    assert(before.targets[a] == ts[a] && before.targets[b] == ts[b]);
                }
            }
            assert forall|j: int| 0 <= j < ts.len() implies (#[trigger] ts[j]).1 < before.records.len() by {
                if j < before.targets.len() {
                    assert(ts[j] == before.targets[j]);
                }
            }
        }
        let g = ContentGraph { records, links, targets };
        *self = g;
    }

    /// An empty graph.
    pub fn new() -> (r: ContentGraph)
        ensures
            r@.wf(),
            r@.records.len() == 0,
            r@.links.len() == 0,
            r@.targets.len() == 0,
    {
        let r = ContentGraph { records: Vec::new(), links: Vec::new(), targets: Vec::new() };
        assert(r@.records =~= Seq::<Seq<char>>::empty());
        r
    }

    fn find_record(&self, content: &String) -> (r: Option<usize>)
        ensures
            r matches Some(i) ==> i < self@.records.len() && self@.records[i as int] == content@,
            r is None ==> !self@.records.contains(content@),
    {
        let mut i: usize = 0;
        while i < self.records.len()
            invariant
                i <= self.records.len(),
                forall|k: int| 0 <= k < i ==> self@.records[k] != content@,
            decreases self.records.len() - i,
        {
            if self.records[i] == *content {
                return Some(i);
            }
            i = i + 1;
        }
        None
    }

    /// Stores `content` and returns its address; content already stored keeps
    /// the address it has.
    pub fn put(&mut self, content: String) -> (h: ContentHash)
        ensures
            h.0 < final(self)@.records.len(),
            final(self)@.records[h.0 as int] == content@,
            old(self)@.records.contains(content@) ==> final(self)@.records == old(self)@.records,
            !old(self)@.records.contains(content@) ==> final(self)@.records == old(self)@.records.push(content@),
            final(self)@.links == old(self)@.links,
            final(self)@.targets == old(self)@.targets,
    {
        proof {
            use_type_invariant(&*self);
        }
        match self.find_record(&content) {
            Some(i) => ContentHash(i),
            None => {
                let n = self.records.len();
                self.push_record(content);
                ContentHash(n)
            },
        }
    }

    /// The content stored at `h`, or `None` when nothing is stored there.
    pub fn get(&self, h: ContentHash) -> (r: Option<String>)
        ensures
            r is Some <==> h.0 < self@.records.len(),
            r matches Some(s) ==> s@ == self@.records[h.0 as int],
    {
        if h.0 < self.records.len() {
            Some(self.records[h.0].clone())
        } else {
            None
        }
    }

    fn find_link(&self, parent: &Path, label: &String) -> (r: bool)
        ensures
            r == self@.links.contains((parent@, label@)),
    {
        let mut i: usize = 0;
        while i < self.links.len()
            invariant
                i <= self.links.len(),
                forall|k: int| 0 <= k < i ==> self@.links[k] != (parent@, label@),
            decreases self.links.len() - i,
        {
            if self.links[i].parent.same(parent) && self.links[i].label == *label {
                assert(self@.links[i as int] == (parent@, label@));
                return true;
            }
            i = i + 1;
        }
        false
    }

    /// Makes every structural edge of `path`'s chain exist, creating only the
    /// missing ones; says whether any was missing.
    pub fn ensure(&mut self, path: &Path) -> (r: EnsureOutcome)
        requires
            path.wf(),
        ensures
            final(self)@.records == old(self)@.records,
            final(self)@.targets == old(self)@.targets,
            forall|e| #[trigger] final(self)@.links.contains(e) <==> old(self)@.links_after_ensure(path@, e),
            r == EnsureOutcome::AlreadyExisted <==> old(self)@.chain_exists(path@),
    {
        proof {
            use_type_invariant(&*self);
        }
        let ghost start = self@;
        let mut created = false;
        let mut i: usize = 1;
        while i < path.len()
            invariant
                path.wf(),
                1 <= i <= path@.len(),
                self@.wf(),
                self@.records == start.records,
                self@.targets == start.targets,
                forall|e| #[trigger] self@.links.contains(e) <==> (start.links.contains(e) || exists|j: int|
                    1 <= j < i && e == (path@.subrange(0, j), #[trigger] path@[j])),
                !created <==> forall|j: int| 1 <= j < i ==> start.links.contains((path@.subrange(0, j), #[trigger] path@[j])),
            decreases path@.len() - i,
        {
            let parent = path.prefix(i);
            let label = path.component(i);
            let ghost e = (path@.subrange(0, i as int), path@[i as int]);
            if !self.find_link(&parent, &label) {
                let ghost before = self@;
                self.push_link(Link { parent, label });
                proof {
                    assert forall|x| #[trigger] self@.links.contains(x) <==> (before.links.contains(x) || x == e) by {
                        if x == e {
                            assert(self@.links[before.links.len() as int] == e);
                        }
                        if before.links.contains(x) {
                            let k = choose|k: int| 0 <= k < before.links.len() && before.links[k] == x;
                            assert(self@.links[k] == x);
                        }
                    }
                    assert(!start.links.contains(e));
                }
                created = true;
            }
            i = i + 1;
        }
        proof {
            assert forall|e| #[trigger] self@.links.contains(e) <==> start.links_after_ensure(path@, e) by {
                if chain_link(path@, e) {
                    let j = choose|j: int| 1 <= j < path@.len() && e == (path@.subrange(0, j), #[trigger] path@[j]);
                    assert(e == (path@.subrange(0, j), path@[j]));
                }
            }
            if start.chain_exists(path@) {
                assert forall|j: int| 1 <= j < path@.len() implies start.links.contains((path@.subrange(0, j), #[trigger] path@[j])) by {
                    assert(chain_link(path@, (path@.subrange(0, j), path@[j])));
                }
            }
            if !created {
                assert forall|e| chain_link(path@, e) implies start.links.contains(e) by {
                    let j = choose|j: int| 1 <= j < path@.len() && e == (path@.subrange(0, j), #[trigger] path@[j]);
                }
            }
        }
        if created {
            EnsureOutcome::Created
        } else {
            EnsureOutcome::AlreadyExisted
        }
    }

    fn find_target(&self, node: &Path, h: usize) -> (r: bool)
        ensures
            r == self@.targets.contains((node@, h as nat)),
    {
        let mut i: usize = 0;
        while i < self.targets.len()
            invariant
                i <= self.targets.len(),
                forall|k: int| 0 <= k < i ==> self@.targets[k] != (node@, h as nat),
            decreases self.targets.len() - i,
        {
            if self.targets[i].target == h && self.targets[i].node.same(node) {
                assert(self@.targets[i as int] == (node@, h as nat));
                return true;
            }
            i = i + 1;
        }
        false
    }

    /// Adds a content edge from `node` to the record at `h`; an edge that is
    /// already there is not duplicated.
    pub fn attach(&mut self, node: &Path, h: ContentHash)
        requires
            h.0 < old(self)@.records.len(),
        ensures
            final(self)@.records == old(self)@.records,
            final(self)@.links == old(self)@.links,
            forall|e| #[trigger] final(self)@.targets.contains(e) <==> (old(self)@.targets.contains(e) || e == (node@, h.0 as nat)),
    {
        proof {
            use_type_invariant(&*self);
        }
        if !self.find_target(node, h.0) {
            let ghost before = self@;
            let ghost e = (node@, h.0 as nat);
            self.push_target(Target { node: node.copied(), target: h.0 });
            proof {
                assert forall|x| #[trigger] self@.targets.contains(x) <==> (before.targets.contains(x) || x == e) by {
                    if x == e {
                        assert(self@.targets[before.targets.len() as int] == e);
                    }
                    if before.targets.contains(x) {
                        let k = choose|k: int| 0 <= k < before.targets.len() && before.targets[k] == x;
                        assert(self@.targets[k] == x);
                    }
                }
            }
        }
    }

    /// The labels of the structural edges out of `node`, each once, in the
    /// order they were created.
    pub fn child_labels(&self, node: &Path) -> (r: Vec<String>)
        ensures
            texts(r@).no_duplicates(),
            forall|l| #[trigger] texts(r@).contains(l) <==> self@.has_link(node@, l),
    {
        proof {
            use_type_invariant(&*self);
        }
        let mut r: Vec<String> = Vec::new();
        let mut i: usize = 0;
        let ghost mut from: Seq<int> = Seq::empty();
        while i < self.links.len()
            invariant
                self@.wf(),
                i <= self.links.len(),
                from.len() == r@.len(),
                forall|k: int| 0 <= k < from.len() ==> 0 <= #[trigger] from[k] < i
                    && self@.links[from[k]] == (node@, texts(r@)[k]),
                forall|j: int| 0 <= j < i && (#[trigger] self@.links[j]).0 == node@
                    ==> texts(r@).contains(self@.links[j].1),
                texts(r@).no_duplicates(),
            decreases self.links.len() - i,
        {
            if self.links[i].parent.same(node) {
                let ghost before = r@;
                let label = self.links[i].label.clone();
                r.push(label);
                proof {
                    let l = self@.links[i as int].1;
                    assert(texts(r@) =~= texts(before).push(l));
                    assert forall|k: int| 0 <= k < before.len() implies texts(r@)[k] != l by {
                        let a = from[k];
                        assert(texts(r@)[k] == texts(before)[k]);
                        assert(self@.links[i as int] == (node@, l));
                        if texts(before)[k] == l {
                            assert(self@.links[a] == self@.links[i as int]);
                        }
                    }
                    assert forall|j: int| 0 <= j < i + 1 && (#[trigger] self@.links[j]).0 == node@
                        implies texts(r@).contains(self@.links[j].1) by {
                        if j < i {
                            let k = choose|k: int| 0 <= k < texts(before).len() && texts(before)[k] == self@.links[j].1;
                            assert(texts(r@)[k] == self@.links[j].1);
                        } else {
                            assert(texts(r@)[before.len() as int] == l);
                        }
                    }
                    from = from.push(i as int);
                }
            }
            i = i + 1;
        }
        proof {
            assert forall|l| #[trigger] texts(r@).contains(l) <==> self@.has_link(node@, l) by {
                if texts(r@).contains(l) {
                    let k = choose|k: int| 0 <= k < texts(r@).len() && texts(r@)[k] == l;
                    assert(self@.links[from[k]] == (node@, l));
                }
                if self@.has_link(node@, l) {
                    let j = choose|j: int| 0 <= j < self@.links.len() && self@.links[j] == (node@, l);
                    assert(self@.links[j].0 == node@);
                }
            }
        }
        r
    }

    /// The addresses that content edges out of `node` lead to, each once, in
    /// the order the edges were created.
    pub fn targets_at(&self, node: &Path) -> (r: Vec<ContentHash>)
        ensures
            addresses(r@).no_duplicates(),
            forall|k: int| 0 <= k < r@.len() ==> (#[trigger] r@[k]).0 < self@.records.len(),
            forall|h| #[trigger] addresses(r@).contains(h) <==> self@.has_target(node@, h),
    {
        proof {
            use_type_invariant(&*self);
        }
        let mut r: Vec<ContentHash> = Vec::new();
        let mut i: usize = 0;
        let ghost mut from: Seq<int> = Seq::empty();
        while i < self.targets.len()
            invariant
                self@.wf(),
                i <= self.targets.len(),
                from.len() == r@.len(),
                forall|k: int| 0 <= k < r@.len() ==> (#[trigger] r@[k]).0 < self@.records.len(),
                forall|k: int| 0 <= k < from.len() ==> 0 <= #[trigger] from[k] < i
                    && self@.targets[from[k]] == (node@, addresses(r@)[k]),
                forall|j: int| 0 <= j < i && (#[trigger] self@.targets[j]).0 == node@
                    ==> addresses(r@).contains(self@.targets[j].1),
                addresses(r@).no_duplicates(),
            decreases self.targets.len() - i,
        {
            if self.targets[i].node.same(node) {
                let ghost before = r@;
                let h = ContentHash(self.targets[i].target);
                proof {
                    assert(self@.targets[i as int].1 < self@.records.len());
                }
                r.push(h);
                proof {
                    let a = self@.targets[i as int].1;
                    assert(addresses(r@) =~= addresses(before).push(a));
                    assert forall|k: int| 0 <= k < before.len() implies addresses(r@)[k] != a by {
                        let b = from[k];
                        assert(addresses(r@)[k] == addresses(before)[k]);
                        assert(self@.targets[i as int] == (node@, a));
                        if addresses(before)[k] == a {
                            assert(self@.targets[b] == self@.targets[i as int]);
                        }
                    }
                    assert forall|j: int| 0 <= j < i + 1 && (#[trigger] self@.targets[j]).0 == node@
                        implies addresses(r@).contains(self@.targets[j].1) by {
                        if j < i {
                            let k = choose|k: int| 0 <= k < addresses(before).len() && addresses(before)[k] == self@.targets[j].1;
                            assert(addresses(r@)[k] == self@.targets[j].1);
                        } else {
                            assert(addresses(r@)[before.len() as int] == a);
                        }
                    }
                    from = from.push(i as int);
                }
            }
            i = i + 1;
        }
        proof {
            assert forall|h| #[trigger] addresses(r@).contains(h) <==> self@.has_target(node@, h) by {
                if addresses(r@).contains(h) {
                    let k = choose|k: int| 0 <= k < addresses(r@).len() && addresses(r@)[k] == h;
                    assert(self@.targets[from[k]] == (node@, h));
                }
                if self@.has_target(node@, h) {
                    let j = choose|j: int| 0 <= j < self@.targets.len() && self@.targets[j] == (node@, h);
                    assert(self@.targets[j].0 == node@);
                }
            }
        }
        r
    }
}

} // verus!
