//! Paths: non-empty sequences of components that address nodes of the index tree.
use crate::text::{
    all_valid, copy_texts, digit_char, digits, i32_text, int_text, is_separator, is_valid_component,
    nat_text, same_texts, texts, valid_component,
};
use vstd::prelude::*;

verus! {

/// Why an operation of the index was refused.
#[derive(Clone, Copy, Debug, PartialEq, Eq, Structural)]
pub enum IndexError {
    /// A path component was empty or held the separator.
    InvalidComponent,
    /// The time source could not give the current instant.
    ClockUnavailable,
}

/// A path of the index tree.
#[derive(Clone, Debug)]
pub struct Path {
    components: Vec<String>,
}

impl View for Path {
    type V = Seq<Seq<char>>;

    closed spec fn view(&self) -> Seq<Seq<char>> {
        texts(self.components@)
    }
}

/// The first component of every time bucket.
pub open spec fn posts_root_text() -> Seq<char> {
    "all_posts"@
}

/// The first component of every tag bucket.
pub open spec fn tags_root_text() -> Seq<char> {
    "all_tags"@
}

/// The text of a day: `<year>-<month>-<day>` in plain decimal.
pub open spec fn day_key(y: int, m: int, d: int) -> Seq<char> {
    int_text(y) + seq!['-'] + int_text(m) + seq!['-'] + int_text(d)
}

/// The path of a day: `all_posts.<year>-<month>-<day>`.
pub open spec fn day_path_view(y: int, m: int, d: int) -> Seq<Seq<char>> {
    seq![posts_root_text(), day_key(y, m, d)]
}

/// The path of an hour bucket: `all_posts.<year>-<month>-<day>.<hour>`.
pub open spec fn hour_path_view(y: int, m: int, d: int, h: int) -> Seq<Seq<char>> {
    day_path_view(y, m, d).push(int_text(h))
}

/// The root under which every tag has its bucket.
pub open spec fn tags_root_view() -> Seq<Seq<char>> {
    seq![tags_root_text()]
}

/// The path of a tag bucket: `all_tags.<tag>`.
pub open spec fn tag_path_view(tag: Seq<char>) -> Seq<Seq<char>> {
    seq![tags_root_text(), tag]
}

/// The text of a path: its components joined by the separator `.`.
pub open spec fn join(cs: Seq<Seq<char>>) -> Seq<char>
    decreases cs.len(),
{
    if cs.len() <= 1 {
        if cs.len() == 0 {
            Seq::empty()
        } else {
            cs[0]
        }
    } else {
        join(cs.drop_last()) + seq!['.'] + cs.last()
    }
}

/// A text that splits into components with an empty one among them: it is
/// empty, starts or ends with the separator, or holds two in a row.
pub open spec fn has_empty_segment(s: Seq<char>) -> bool {
    ||| s.len() == 0
    ||| is_separator(s[0])
    ||| is_separator(s.last())
    ||| exists|k: int| 0 <= k < s.len() - 1 && is_separator(#[trigger] s[k]) && is_separator(s[k + 1])
}

proof fn lemma_join_len(cs: Seq<Seq<char>>)
    requires
        cs.len() > 0,
    ensures
        join(cs).len() >= cs.last().len(),
        cs.len() > 1 ==> join(cs).len() == join(cs.drop_last()).len() + 1 + cs.last().len(),
        cs.len() > 1 ==> join(cs)[join(cs.drop_last()).len() as int] == '.',
        forall|i: int| 0 <= i < cs.last().len() ==> join(cs)[join(cs).len() - cs.last().len() + i] == #[trigger] cs.last()[i],
{
}

/// Joining valid components is injective: a path's text determines the path.
pub proof fn lemma_join_injective(a: Seq<Seq<char>>, b: Seq<Seq<char>>)
    requires
        a.len() > 0,
        b.len() > 0,
        all_valid(a),
        all_valid(b),
        join(a) == join(b),
    ensures
        a == b,
    decreases a.len() + b.len(),
{
    let s = join(a);
    let x = a.last();
    let y = b.last();
    lemma_join_len(a);
    lemma_join_len(b);
    assert(valid_component(x) && valid_component(y)) by {
        assert(valid_component(a[a.len() - 1]));
        assert(valid_component(b[b.len() - 1]));
    }
    if x.len() < y.len() || (x.len() == y.len() && a.len() > 1 && b.len() == 1) {
        if a.len() > 1 {
            let p = join(a.drop_last()).len() as int;
            assert(s[p] == '.');
            assert(s[p] == y[p - (s.len() - y.len())]);
        } else {
            assert(x.len() == s.len());
        }
    } else if y.len() < x.len() || (x.len() == y.len() && b.len() > 1 && a.len() == 1) {
        if b.len() > 1 {
            let p = join(b.drop_last()).len() as int;
            assert(s[p] == '.');
            assert(s[p] == x[p - (s.len() - x.len())]);
        } else {
            assert(y.len() == s.len());
        }
    } else {
        assert(x =~= y) by {
            assert forall|i: int| 0 <= i < x.len() implies x[i] == y[i] by {
                assert(s[s.len() - x.len() + i] == x[i]);
                assert(s[s.len() - y.len() + i] == y[i]);
            }
        }
        if a.len() == 1 {
            assert(a =~= b);
        } else {
            let pa = a.drop_last();
            let pb = b.drop_last();
            assert(join(pa) =~= join(pb)) by {
                assert(join(pa) == s.subrange(0, join(pa).len() as int));
                assert(join(pb) == s.subrange(0, join(pb).len() as int));
            }
            assert(all_valid(pa)) by {
                assert forall|i: int| 0 <= i < pa.len() implies valid_component(#[trigger] pa[i]) by {
                    assert(valid_component(a[i]));
                }
            }
            assert(all_valid(pb)) by {
                assert forall|i: int| 0 <= i < pb.len() implies valid_component(#[trigger] pb[i]) by {
                    assert(valid_component(b[i]));
                }
            }
            lemma_join_injective(pa, pb);
            assert(a =~= pa.push(x));
            assert(b =~= pb.push(y));
        }
    }
}

/// The text of a well-formed path splits back into non-empty components.
pub proof fn lemma_join_has_no_empty_segment(cs: Seq<Seq<char>>)
    requires
        cs.len() > 0,
        all_valid(cs),
    ensures
        !has_empty_segment(join(cs)),
    decreases cs.len(),
{
    let s = join(cs);
    let x = cs.last();
    assert(valid_component(cs[cs.len() - 1]));
    lemma_join_len(cs);
    assert(s.last() == x.last()) by {
        assert(s[s.len() - x.len() + (x.len() - 1)] == x[x.len() - 1]);
    }
    if cs.len() == 1 {
        assert(valid_component(cs[0]));
    } else {
        let pre = cs.drop_last();
        assert(all_valid(pre)) by {
            assert forall|i: int| 0 <= i < pre.len() implies valid_component(#[trigger] pre[i]) by {
                assert(valid_component(cs[i]));
            }
        }
        lemma_join_has_no_empty_segment(pre);
        let j = join(pre);
        let p = j.len() as int;
        assert(s == j + seq!['.'] + x);
        assert(s[0] == j[0]);
        assert forall|k: int| 0 <= k < s.len() - 1 && is_separator(#[trigger] s[k]) implies !is_separator(s[k + 1]) by {
            if k + 1 < p {
                assert(s[k] == j[k] && s[k + 1] == j[k + 1]);
            } else if k + 1 == p {
                assert(s[k] == j.last());
            } else if k == p {
                assert(s[k + 1] == x[0]);
            } else {
                assert(s[k] == x[k - p - 1]);
            }
        }
    }
}

proof fn lemma_digits_no_separator(n: nat)
    ensures
        forall|i: int| 0 <= i < digits(n).len() ==> !is_separator(#[trigger] digits(n)[i]),
    decreases n,
{
    if n >= 10 {
        lemma_digits_no_separator(n / 10);
        let s = digits(n);
        let p = digits(n / 10);
        assert forall|i: int| 0 <= i < s.len() implies !is_separator(#[trigger] s[i]) by {
            if i < p.len() {
                assert(s[i] == p[i]);
            } else {
                assert(s[i] == digit_char(n % 10));
            }
        }
    }
}

proof fn lemma_int_text_no_separator(n: int)
    ensures
        int_text(n).len() > 0,
        forall|i: int| 0 <= i < int_text(n).len() ==> !is_separator(#[trigger] int_text(n)[i]),
{
    let m: nat = if n < 0 { (-n) as nat } else { n as nat };
    lemma_digits_no_separator(m);
    if n < 0 {
        assert(forall|i: int|
            1 <= i < int_text(n).len() ==> int_text(n)[i] == #[trigger] digits(m)[i - 1]);
    }
    assert(digits(m).len() > 0) by {
        reveal_with_fuel(digits, 2);
    }
}

/// Day keys and hour texts are valid components.
pub proof fn lemma_time_components_valid(y: int, m: int, d: int, h: int)
    ensures
        valid_component(day_key(y, m, d)),
        valid_component(int_text(h)),
        valid_component(posts_root_text()),
        valid_component(tags_root_text()),
        posts_root_text() != tags_root_text(),
{
    lemma_int_text_no_separator(y);
    lemma_int_text_no_separator(m);
    lemma_int_text_no_separator(d);
    lemma_int_text_no_separator(h);
    let k = day_key(y, m, d);
    let ly = int_text(y).len();
    let lm = int_text(m).len();
    assert forall|i: int| 0 <= i < k.len() implies !is_separator(#[trigger] k[i]) by {
        if i < ly {
            assert(k[i] == int_text(y)[i]);
        } else if i == ly {
            assert(k[i] == '-');
        } else if i < ly + 1 + lm {
            assert(k[i] == int_text(m)[i - ly - 1]);
        } else if i == ly + 1 + lm {
            assert(k[i] == '-');
        } else {
            assert(k[i] == int_text(d)[i - ly - 2 - lm]);
        }
    }
    reveal_strlit("all_posts");
    reveal_strlit("all_tags");
    assert(posts_root_text()[4] != tags_root_text()[4]);
}

impl Path {
    /// Well formed: at least one component, and each of them valid.
    pub open spec fn wf(&self) -> bool {
        self@.len() > 0 && all_valid(self@)
    }

    /// The path of the given components, or `InvalidComponent` when there are
    /// none or one of them is empty or holds the separator `.`.
    pub fn build(components: Vec<String>) -> (r: Result<Path, IndexError>)
        ensures
            r is Ok <==> components@.len() > 0 && all_valid(texts(components@)),
            r matches Ok(p) ==> p@ == texts(components@) && p.wf(),
            r matches Err(e) ==> e == IndexError::InvalidComponent,
    {
        if components.len() == 0 {
            return Err(IndexError::InvalidComponent);
        }
        let mut i: usize = 0;
        while i < components.len()
            invariant
                i <= components.len(),
                forall|k: int| 0 <= k < i ==> valid_component(#[trigger] components@[k]@),
            decreases components.len() - i,
        {
            if !is_valid_component(&components[i]) {
                assert(texts(components@)[i as int] == components@[i as int]@);
                return Err(IndexError::InvalidComponent);
            }
            i = i + 1;
        }
        assert forall|k: int| 0 <= k < components@.len() implies valid_component(
            #[trigger] texts(components@)[k],
        ) by {
            assert(valid_component(components@[k]@));
        }
        Ok(Path { components })
    }

    /// The text of this path: its components joined by `.`.
    pub fn to_text(&self) -> (r: String)
        requires
            self.wf(),
        ensures
            r@ == join(self@),
    {
        let mut r = self.components[0].clone();
        let mut i: usize = 1;
        proof {
            assert(self@.subrange(0, 1).len() == 1);
            assert(join(self@.subrange(0, 1)) == self@[0]);
        }
        while i < self.components.len()
            invariant
                1 <= i <= self@.len(),
                r@ == join(self@.subrange(0, i as int)),
            decreases self@.len() - i,
        {
            let ghost before = r@;
            r = r.concat(".").concat(self.components[i].as_str());
            proof {
                reveal_strlit(".");
                let next = self@.subrange(0, i + 1);
                assert(next.drop_last() =~= self@.subrange(0, i as int));
                assert(self.components@[i as int]@ == self@[i as int]);
                assert(r@ =~= join(next));
            }
            i = i + 1;
        }
        assert(self@.subrange(0, self@.len() as int) =~= self@);
        r
    }

    /// The path that a text names, split at each `.`, or `InvalidComponent`
    /// when that leaves an empty component.
    pub fn parse(text: &String) -> (r: Result<Path, IndexError>)
        ensures
            r is Ok <==> !has_empty_segment(text@),
            r matches Ok(p) ==> join(p@) == text@ && p.wf(),
            r matches Err(e) ==> e == IndexError::InvalidComponent,
    {
        let ghost s = text@;
        let n = text.as_str().unicode_len();
        let mut comps: Vec<String> = Vec::new();
        let mut start: usize = 0;
        let mut i: usize = 0;
        while i < n
            invariant
                n == s.len(),
                s == text@,
                start <= i <= n,
                all_valid(texts(comps@)),
                texts(comps@).len() == 0 <==> start == 0,
                texts(comps@).len() > 0 ==> join(texts(comps@)) + seq!['.'] == s.subrange(0, start as int),
                start > 0 ==> is_separator(s[start - 1]),
                forall|k: int| start <= k < i ==> !is_separator(#[trigger] s[k]),
                i > 0 ==> !is_separator(s[0]),
                forall|k: int| 0 <= k && k + 1 < i && is_separator(#[trigger] s[k]) ==> !is_separator(s[k + 1]),
            decreases n - i,
        {
            let c = text.as_str().get_char(i);
            if c == '.' {
                if i == start {
                    proof {
                        if start > 0 {
                            assert(is_separator(s[start - 1]) && is_separator(s[start - 1 + 1]));
                        }
                    }
                    return Err(IndexError::InvalidComponent);
                }
                let piece = String::from_str(text.as_str().substring_char(start, i));
                let ghost before = comps@;
                let ghost x = piece@;
                comps.push(piece);
                proof {
                    assert(x == s.subrange(start as int, i as int));
                    assert(texts(comps@) =~= texts(before).push(x));
                    assert(valid_component(x)) by {
                        assert forall|k: int| 0 <= k < x.len() implies !is_separator(#[trigger] x[k]) by {
                            assert(x[k] == s[start + k]);
                        }
                    }
                    assert forall|k: int| 0 <= k < texts(comps@).len() implies valid_component(#[trigger] texts(comps@)[k]) by {
                        if k < texts(before).len() {
                            assert(texts(comps@)[k] == texts(before)[k]);
                        }
                    }
                    let cs = texts(comps@);
                    assert(cs.drop_last() =~= texts(before));
                    if texts(before).len() == 0 {
                        assert(cs.len() == 1);
                        assert(join(cs) == x);
                    }
                    assert(join(cs) + seq!['.'] =~= s.subrange(0, i + 1));
                }
                start = i + 1;
            }
            i = i + 1;
        }
        if start == n {
            proof {
                if n > 0 {
                    assert(is_separator(s.last()));
                }
            }
            return Err(IndexError::InvalidComponent);
        }
        let piece = String::from_str(text.as_str().substring_char(start, n));
        let ghost before = comps@;
        let ghost x = piece@;
        comps.push(piece);
        proof {
            assert(x == s.subrange(start as int, n as int));
            assert(texts(comps@) =~= texts(before).push(x));
            assert(valid_component(x)) by {
                assert forall|k: int| 0 <= k < x.len() implies !is_separator(#[trigger] x[k]) by {
                    assert(x[k] == s[start + k]);
                }
            }
            assert forall|k: int| 0 <= k < texts(comps@).len() implies valid_component(#[trigger] texts(comps@)[k]) by {
                if k < texts(before).len() {
                    assert(texts(comps@)[k] == texts(before)[k]);
                }
            }
            let cs = texts(comps@);
            assert(cs.drop_last() =~= texts(before));
            if texts(before).len() == 0 {
                assert(cs.len() == 1);
                assert(join(cs) == x);
            }
            assert(join(cs) =~= s);
            assert(!is_separator(s.last()));
        }
        Ok(Path { components: comps })
    }

    /// The number of components.
    pub fn len(&self) -> (r: usize)
        ensures
            r == self@.len(),
    {
        self.components.len()
    }

    /// The component at position `i`.
    pub fn component(&self, i: usize) -> (r: String)
        requires
            i < self@.len(),
        ensures
            r@ == self@[i as int],
    {
        self.components[i].clone()
    }

    /// The last component: the label of the structural edge that leads to
    /// this path's node.
    pub fn last_component(&self) -> (r: String)
        requires
            self.wf(),
        ensures
            r@ == self@.last(),
    {
        self.components[self.components.len() - 1].clone()
    }

    /// The path of the first `n` components.
    pub fn prefix(&self, n: usize) -> (r: Path)
        requires
            self.wf(),
            1 <= n <= self@.len(),
        ensures
            r@ == self@.subrange(0, n as int),
            r.wf(),
    {
        Path { components: copy_texts(&self.components, n) }
    }

    /// The parent path: this one without its last component; `None` for a
    /// path of one component.
    pub fn parent(&self) -> (r: Option<Path>)
        requires
            self.wf(),
        ensures
            r is None <==> self@.len() == 1,
            r matches Some(q) ==> q@ == self@.drop_last() && q.wf(),
    {
        if self.components.len() == 1 {
            None
        } else {
            let q = self.prefix(self.components.len() - 1);
            assert(q@ =~= self@.drop_last());
            Some(q)
        }
    }

    /// A copy of this path.
    pub fn copied(&self) -> (r: Path)
        ensures
            r@ == self@,
    {
        Path { components: copy_texts(&self.components, self.components.len()) }
    }

    /// Tells whether the two paths have the same components.
    pub fn same(&self, other: &Path) -> (r: bool)
        ensures
            r == (self@ == other@),
    {
        same_texts(&self.components, &other.components)
    }

    /// This path with `c` appended as its last component.
    pub fn child(&self, c: String) -> (r: Path)
        ensures
            r@ == self@.push(c@),
    {
        let mut components = copy_texts(&self.components, self.components.len());
        let ghost before = components@;
        components.push(c);
        proof {
            assert(texts(components@) =~= texts(before).push(c@));
        }
        Path { components }
    }

    fn single(c: String) -> (r: Path)
        ensures
            r@ == seq![c@],
    {
        let mut components: Vec<String> = Vec::new();
        components.push(c);
        assert(texts(components@) =~= seq![c@]);
        Path { components }
    }

    fn day_with_year_text(year: String, month: u64, day: u64) -> (r: Path)
        ensures
            r@ == seq![posts_root_text(), year@ + seq!['-'] + int_text(month as int) + seq!['-'] + int_text(day as int)],
    {
        let root = Path::single(String::from_str("all_posts"));
        let m = nat_text(month);
        let d = nat_text(day);
        let key = year.concat("-").concat(m.as_str()).concat("-").concat(d.as_str());
        proof {
            reveal_strlit("-");
            assert(key@ =~= year@ + seq!['-'] + m@ + seq!['-'] + d@);
        }
        let r = root.child(key);
        assert(r@ =~= seq![posts_root_text(), year@ + seq!['-'] + int_text(month as int) + seq!['-'] + int_text(day as int)]);
        r
    }

    /// The path of a day, `all_posts.<year>-<month>-<day>`.
    pub fn for_day(year: u64, month: u64, day: u64) -> (r: Path)
        ensures
            r@ == day_path_view(year as int, month as int, day as int),
            r.wf(),
    {
        let r = Path::day_with_year_text(nat_text(year), month, day);
        proof {
            lemma_time_components_valid(year as int, month as int, day as int, 0);
            assert(r@ =~= day_path_view(year as int, month as int, day as int));
        }
        r
    }

    /// The path of a day whose year may be negative.
    pub fn for_calendar_day(year: i32, month: u32, day: u32) -> (r: Path)
        ensures
            r@ == day_path_view(year as int, month as int, day as int),
            r.wf(),
    {
        let r = Path::day_with_year_text(i32_text(year), month as u64, day as u64);
        proof {
            lemma_time_components_valid(year as int, month as int, day as int, 0);
            assert(r@ =~= day_path_view(year as int, month as int, day as int));
        }
        r
    }

    /// The path of an hour bucket, `all_posts.<year>-<month>-<day>.<hour>`.
    pub fn for_hour(year: u64, month: u64, day: u64, hour: u64) -> (r: Path)
        ensures
            r@ == hour_path_view(year as int, month as int, day as int, hour as int),
            r.wf(),
    {
        let r = Path::for_day(year, month, day).child(nat_text(hour));
        proof {
            lemma_time_components_valid(year as int, month as int, day as int, hour as int);
        }
        r
    }

    /// The hour bucket of a calendar instant whose year may be negative.
    pub fn for_calendar_hour(year: i32, month: u32, day: u32, hour: u32) -> (r: Path)
        ensures
            r@ == hour_path_view(year as int, month as int, day as int, hour as int),
            r.wf(),
    {
        let r = Path::for_calendar_day(year, month, day).child(nat_text(hour as u64));
        proof {
            lemma_time_components_valid(year as int, month as int, day as int, hour as int);
        }
        r
    }

    /// The root of the tag buckets, `all_tags`.
    pub fn tags_root() -> (r: Path)
        ensures
            r@ == tags_root_view(),
            r.wf(),
    {
        proof {
            lemma_time_components_valid(0, 0, 0, 0);
        }
        Path::single(String::from_str("all_tags"))
    }

    /// The bucket of a tag, `all_tags.<tag>`, or `InvalidComponent` when the
    /// tag is empty or holds the separator.
    pub fn for_tag(tag: &String) -> (r: Result<Path, IndexError>)
        ensures
            r is Ok <==> valid_component(tag@),
            r matches Ok(p) ==> p@ == tag_path_view(tag@) && p.wf(),
            r matches Err(e) ==> e == IndexError::InvalidComponent,
    {
        if !is_valid_component(tag) {
            return Err(IndexError::InvalidComponent);
        }
        let r = Path::tags_root().child(tag.clone());
        proof {
            lemma_time_components_valid(0, 0, 0, 0);
            assert(r@ =~= tag_path_view(tag@));
        }
        Ok(r)
    }
}

} // verus!
