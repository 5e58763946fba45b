//! Version-order comparison of strings.

use crate::text::{
    chars_of, digit_char, is_ws, lemma_trim_keeps, lemma_trimmed_ends, nat_text, trim, trim_bounds,
    u64_text,
};
use std::cmp::Ordering;
use vstd::prelude::*;

verus! {

/// A piece of a version string: a number, or any other text.
enum Component {
    Num(u64),
    Str(Vec<char>),
}

/// A version component with its text taken as a sequence of characters.
pub enum Part {
    Num(u64),
    Str(Seq<char>),
}

impl View for Component {
    type V = Part;

    closed spec fn view(&self) -> Part {
        match self {
            Component::Num(n) => Part::Num(*n),
            Component::Str(s) => Part::Str(s@),
        }
    }
}

pub open spec fn is_ascii_digit(c: char) -> bool {
    '0' <= c && c <= '9'
}

/// The number that a run of ASCII digits stands for.
pub open spec fn digits_number(s: Seq<char>) -> nat
    decreases s.len(),
{
    if s.len() == 0 {
        0
    } else {
        digits_number(s.drop_last()) * 10 + (s.last() as int - 48) as nat
    }
}

/// The text is made of ASCII digits only, and there is at least one.
pub open spec fn all_digits(s: Seq<char>) -> bool {
    s.len() > 0 && forall|k: int| 0 <= k < s.len() ==> is_ascii_digit(#[trigger] s[k])
}

/// What a piece of a version string stands for: a number where it is all
/// digits and fits in a `u64`, else its text.
pub open spec fn part_of(s: Seq<char>) -> Part {
    if all_digits(s) && digits_number(s) <= u64::MAX {
        Part::Num(digits_number(s) as u64)
    } else {
        Part::Str(s)
    }
}

/// `.` and `-` separate the pieces of a version string.
pub open spec fn is_sep(c: char) -> bool {
    c == '.' || c == '-'
}

/// Reading `s` left to right: the nonempty pieces completed so far, and the
/// piece being read.
pub open spec fn scan_pieces(s: Seq<char>) -> (Seq<Seq<char>>, Seq<char>)
    decreases s.len(),
{
    if s.len() == 0 {
        (Seq::empty(), Seq::empty())
    } else {
        let (done, cur) = scan_pieces(s.drop_last());
        if is_sep(s.last()) {
            (
                if cur.len() > 0 {
                    done.push(cur)
                } else {
                    done
                },
                Seq::empty(),
            )
        } else {
            (done, cur.push(s.last()))
        }
    }
}

/// The nonempty pieces of `s` between separators, in order.
pub open spec fn pieces(s: Seq<char>) -> Seq<Seq<char>> {
    let (done, cur) = scan_pieces(s);
    if cur.len() > 0 {
        done.push(cur)
    } else {
        done
    }
}

/// The components of a version string: its pieces after trimming, each read
/// as a number where it can be.
pub open spec fn parts(s: Seq<char>) -> Seq<Part> {
    pieces(trim(s)).map_values(|p: Seq<char>| part_of(p))
}

/// Numeric order.
pub open spec fn num_order(a: u64, b: u64) -> Ordering {
    if a < b {
        Ordering::Less
    } else if a == b {
        Ordering::Equal
    } else {
        Ordering::Greater
    }
}

/// Lexicographic order of character sequences, by code point.
pub open spec fn text_order(a: Seq<char>, b: Seq<char>) -> Ordering
    decreases a.len(),
{
    if a.len() == 0 && b.len() == 0 {
        Ordering::Equal
    } else if a.len() == 0 {
        Ordering::Less
    } else if b.len() == 0 {
        Ordering::Greater
    } else if a[0] < b[0] {
        Ordering::Less
    } else if a[0] > b[0] {
        Ordering::Greater
    } else {
        text_order(a.drop_first(), b.drop_first())
    }
}

/// Order of components: numbers by value, texts lexicographically, and any
/// number above any text.
pub open spec fn part_order(a: Part, b: Part) -> Ordering {
    match (a, b) {
        (Part::Num(x), Part::Num(y)) => num_order(x, y),
        (Part::Str(x), Part::Str(y)) => text_order(x, y),
        (Part::Num(_), Part::Str(_)) => Ordering::Greater,
        (Part::Str(_), Part::Num(_)) => Ordering::Less,
    }
}

/// Order of component lists: the first differing component decides; where
/// one list is a prefix of the other, the longer one is greater when its next
/// component is a number and smaller when it is a text.
pub open spec fn parts_order(a: Seq<Part>, b: Seq<Part>) -> Ordering
    decreases a.len(),
{
    if a.len() == 0 && b.len() == 0 {
        Ordering::Equal
    } else if a.len() == 0 {
        if b[0] is Num {
            Ordering::Less
        } else {
            Ordering::Greater
        }
    } else if b.len() == 0 {
        if a[0] is Num {
            Ordering::Greater
        } else {
            Ordering::Less
        }
    } else {
        match part_order(a[0], b[0]) {
            Ordering::Equal => parts_order(a.drop_first(), b.drop_first()),
            o => o,
        }
    }
}

/// The version order of two strings.
pub open spec fn version_order(a: Seq<char>, b: Seq<char>) -> Ordering {
    parts_order(parts(a), parts(b))
}

/// The views of a list of components.
spec fn parts_view(v: Seq<Component>) -> Seq<Part> {
    v.map_values(|c: Component| c@)
}

/// The components from index `i` on.
pub open spec fn parts_from(v: Seq<Part>, i: usize) -> Seq<Part> {
    v.skip(i as int)
}

/// The view of the component at index `i`.
spec fn part_at(v: Seq<Component>, i: usize) -> Part {
    v[i as int]@
}

/// The character at index `i`.
pub open spec fn char_at(v: Seq<char>, i: usize) -> char {
    v[i as int]
}

/// The characters from index `i` on.
pub open spec fn text_from(v: Seq<char>, i: usize) -> Seq<char> {
    v.skip(i as int)
}

proof fn lemma_text_step(a: Seq<char>, i: usize)
    requires
        i < a.len(),
    ensures
        text_from(a, i)[0] == char_at(a, i),
        text_from(a, i).drop_first() == a.skip(i + 1),
{
    assert(text_from(a, i).drop_first() =~= a.skip(i + 1));
}

proof fn lemma_parts_step(v: Seq<Component>, i: usize)
    requires
        i < v.len(),
    ensures
        parts_from(parts_view(v), i)[0] == part_at(v, i),
        parts_from(parts_view(v), i).drop_first() == parts_view(v).skip(i + 1),
{
    assert(parts_from(parts_view(v), i).drop_first() =~= parts_view(v).skip(i + 1));
}

fn char_is_digit(c: char) -> (r: bool)
    ensures
        r == is_ascii_digit(c),
{
    '0' <= c && c <= '9'
}

fn digit_of(c: char) -> (d: u32)
    requires
        is_ascii_digit(c),
    ensures
        d == c as int - 48,
        d < 10,
{
    (c as u32) - 48
}

/// A copy of `v[lo..hi]`.
fn copy_range(v: &Vec<char>, lo: usize, hi: usize) -> (r: Vec<char>)
    requires
        lo <= hi <= v.len(),
    ensures
        r@ == v@.subrange(lo as int, hi as int),
{
    let mut r: Vec<char> = Vec::new();
    let mut k: usize = lo;
    while k < hi
        invariant
            lo <= k <= hi <= v.len(),
            r@ == v@.subrange(lo as int, k as int),
        decreases hi - k,
    {
        r.push(v[k]);
        assert(r@ =~= v@.subrange(lo as int, k + 1));
        k = k + 1;
    }
    r
}

impl Component {
    /// Reads the piece `v[lo..hi]` as a number where it is one.
    fn parse(v: &Vec<char>, lo: usize, hi: usize) -> (c: Component)
        requires
            lo <= hi <= v.len(),
        ensures
            c@ == part_of(v@.subrange(lo as int, hi as int)),
    {
        if lo == hi {
            return Component::Str(copy_range(v, lo, hi));
        }
        let ghost p = v@.subrange(lo as int, hi as int);
        let cap: u128 = 0x1_0000_0000_0000_0000;
        let mut acc: u128 = 0;
        let mut k: usize = lo;
        while k < hi
            invariant
                lo <= k <= hi <= v.len(),
                p == v@.subrange(lo as int, hi as int),
                cap == 0x1_0000_0000_0000_0000,
                forall|q: int| lo <= q < k ==> is_ascii_digit(#[trigger] v@[q]),
                acc == (if digits_number(v@.subrange(lo as int, k as int)) < cap {
                    digits_number(v@.subrange(lo as int, k as int)) as int
                } else {
                    cap as int
                }),
            decreases hi - k,
        {
            if !char_is_digit(v[k]) {
                assert(!is_ascii_digit(p[k - lo]));
                return Component::Str(copy_range(v, lo, hi));
            }
            let d: u32 = digit_of(v[k]);
            assert(v@.subrange(lo as int, k + 1).drop_last() =~= v@.subrange(lo as int, k as int));
            let next: u128 = acc * 10 + d as u128;
            acc = if next < cap {
                next
            } else {
                cap
            };
            k = k + 1;
        }
        assert(p =~= v@.subrange(lo as int, k as int));
        assert(all_digits(p)) by {
            assert forall|q: int| 0 <= q < p.len() implies is_ascii_digit(#[trigger] p[q]) by {
                assert(p[q] == v@[lo + q]);
            }
        }
        if acc < cap {
            Component::Num(acc as u64)
        } else {
            Component::Str(copy_range(v, lo, hi))
        }
    }

    fn is_numeric(&self) -> (r: bool)
        ensures
            r == (self@ is Num),
    {
        match self {
            Component::Num(_) => true,
            Component::Str(_) => false,
        }
    }
}

fn char_is_sep(c: char) -> (r: bool)
    ensures
        r == is_sep(c),
{
    c == '.' || c == '-'
}

/// The components of a version string.
fn parts_of(s: &str) -> (r: Vec<Component>)
    ensures
        parts_view(r@) == parts(s@),
{
    let v = chars_of(s);
    let (lo, hi) = trim_bounds(&v, 0, v.len());
    assert(v@.subrange(0, v@.len() as int) =~= v@);
    let mut out: Vec<Component> = Vec::new();
    let ghost mut done: Seq<Seq<char>> = Seq::empty();
    let mut start: usize = lo;
    let mut i: usize = lo;
    assert(v@.subrange(lo as int, lo as int) =~= Seq::<char>::empty());
    assert(v@.subrange(start as int, i as int) =~= Seq::<char>::empty());
    assert(parts_view(out@) =~= done.map_values(|p: Seq<char>| part_of(p)));
    while i < hi
        invariant
            lo <= start <= i <= hi <= v.len(),
            scan_pieces(v@.subrange(lo as int, i as int)) == (done, v@.subrange(start as int, i as int)),
            parts_view(out@) == done.map_values(|p: Seq<char>| part_of(p)),
        decreases hi - i,
    {
        let c: char = v[i];
        assert(v@.subrange(lo as int, i + 1).drop_last() =~= v@.subrange(lo as int, i as int));
        assert(v@.subrange(lo as int, i + 1).last() == c);
        if char_is_sep(c) {
            if start < i {
                let comp = Component::parse(&v, start, i);
                let ghost cv = comp@;
                let ghost before = out@;
                out.push(comp);
                assert(parts_view(out@) =~= parts_view(before).push(cv));
                proof {
                    done = done.push(v@.subrange(start as int, i as int));
                }
                assert(parts_view(out@) =~= done.map_values(|p: Seq<char>| part_of(p)));
            }
            start = i + 1;
            assert(v@.subrange(start as int, i + 1) =~= Seq::<char>::empty());
        } else {
            assert(v@.subrange(start as int, i + 1) =~= v@.subrange(start as int, i as int).push(
                c,
            ));
        }
        i = i + 1;
    }
    if start < hi {
        let comp = Component::parse(&v, start, hi);
        let ghost cv = comp@;
        let ghost before = out@;
        out.push(comp);
        assert(parts_view(out@) =~= parts_view(before).push(cv));
        proof {
            done = done.push(v@.subrange(start as int, hi as int));
        }
        assert(parts_view(out@) =~= done.map_values(|p: Seq<char>| part_of(p)));
    } else {
        assert(v@.subrange(start as int, hi as int) =~= Seq::<char>::empty());
    }
    out
}

/// Compares two texts lexicographically.
fn order_text(a: &Vec<char>, b: &Vec<char>) -> (r: Ordering)
    ensures
        r == text_order(a@, b@),
{
    let mut i: usize = 0;
    assert(text_from(a@, 0) =~= a@);
    assert(text_from(b@, 0) =~= b@);
    loop
        invariant
            i <= a.len(),
            i <= b.len(),
            text_order(a@, b@) == text_order(text_from(a@, i), text_from(b@, i)),
        decreases a.len() - i,
    {
        if i == a.len() && i == b.len() {
            return Ordering::Equal;
        } else if i == a.len() {
            return Ordering::Less;
        } else if i == b.len() {
            return Ordering::Greater;
        }
        proof {
            lemma_text_step(a@, i);
            lemma_text_step(b@, i);
        }
        if a[i] < b[i] {
            return Ordering::Less;
        } else if a[i] > b[i] {
            return Ordering::Greater;
        }
        i = i + 1;
    }
}

/// Compares two components.
fn order_parts(a: &Component, b: &Component) -> (r: Ordering)
    ensures
        r == part_order(a@, b@),
{
    match (a, b) {
        (Component::Num(x), Component::Num(y)) => {
            if *x < *y {
                Ordering::Less
            } else if *x == *y {
                Ordering::Equal
            } else {
                Ordering::Greater
            }
        },
        (Component::Str(x), Component::Str(y)) => order_text(x, y),
        (Component::Num(_), Component::Str(_)) => Ordering::Greater,
        (Component::Str(_), Component::Num(_)) => Ordering::Less,
    }
}

/// Compare two version-shaped strings: numeric components compare as u64,
/// strings lexicographically, a trailing pre-release string sorts below the
/// shorter version (`1.0-rc1 < 1.0`), a trailing numeric above (`1.0.1 >
/// 1.0`).
pub fn vercmp(a: &str, b: &str) -> (r: Ordering)
    ensures
        r == version_order(a@, b@),
{
    let av = parts_of(a);
    let bv = parts_of(b);
    let ghost pa = parts_view(av@);
    let ghost pb = parts_view(bv@);
    let len: usize = if av.len() < bv.len() {
        av.len()
    } else {
        bv.len()
    };
    let mut i: usize = 0;
    assert(parts_from(pa, 0) =~= pa);
    assert(parts_from(pb, 0) =~= pb);
    while i < len
        invariant
            i <= len,
            len <= av.len(),
            len <= bv.len(),
            len == av.len() || len == bv.len(),
            pa == parts_view(av@),
            pb == parts_view(bv@),
            version_order(a@, b@) == parts_order(parts_from(pa, i), parts_from(pb, i)),
        decreases len - i,
    {
        let o = order_parts(&av[i], &bv[i]);
        proof {
            lemma_parts_step(av@, i);
            lemma_parts_step(bv@, i);
        }
        match o {
            Ordering::Equal => {},
            _ => {
                return o;
            },
        }
        i = i + 1;
    }
    if av.len() == bv.len() {
        Ordering::Equal
    } else if av.len() > bv.len() {
        proof {
            lemma_parts_step(av@, i);
        }
        if av[len].is_numeric() {
            Ordering::Greater
        } else {
            Ordering::Less
        }
    } else {
        proof {
            lemma_parts_step(bv@, i);
        }
        if bv[len].is_numeric() {
            Ordering::Less
        } else {
            Ordering::Greater
        }
    }
}

/// The order seen from the other side.
pub open spec fn flip(o: Ordering) -> Ordering {
    match o {
        Ordering::Less => Ordering::Greater,
        Ordering::Equal => Ordering::Equal,
        Ordering::Greater => Ordering::Less,
    }
}

proof fn lemma_text_order(a: Seq<char>, b: Seq<char>)
    ensures
        text_order(b, a) == flip(text_order(a, b)),
        text_order(a, b) == Ordering::Equal ==> a == b,
        text_order(a, a) == Ordering::Equal,
    decreases a.len(),
{
    if a.len() > 0 && b.len() > 0 && a[0] == b[0] {
        lemma_text_order(a.drop_first(), b.drop_first());
        if text_order(a, b) == Ordering::Equal {
            assert forall|k: int| 0 <= k < a.len() implies a[k] == b[k] by {
                if k > 0 {
                    assert(a[k] == a.drop_first()[k - 1]);
                    assert(b[k] == b.drop_first()[k - 1]);
                }
            }
            assert(a =~= b);
        }
    }
    if a.len() > 0 {
        lemma_text_order(a.drop_first(), a.drop_first());
    }
}

proof fn lemma_text_transitive(a: Seq<char>, b: Seq<char>, c: Seq<char>)
    requires
        text_order(a, b) == Ordering::Less,
        text_order(b, c) == Ordering::Less,
    ensures
        text_order(a, c) == Ordering::Less,
    decreases a.len(),
{
    if a.len() > 0 && b.len() > 0 && c.len() > 0 && a[0] == b[0] && b[0] == c[0] {
        lemma_text_transitive(a.drop_first(), b.drop_first(), c.drop_first());
    }
}

proof fn lemma_part_order(a: Part, b: Part)
    ensures
        part_order(b, a) == flip(part_order(a, b)),
        part_order(a, b) == Ordering::Equal ==> a == b,
        part_order(a, a) == Ordering::Equal,
{
    match (a, b) {
        (Part::Str(x), Part::Str(y)) => {
            lemma_text_order(x, y);
        },
        (Part::Str(x), _) => {
            lemma_text_order(x, x);
        },
        _ => {},
    }
}

proof fn lemma_part_transitive(a: Part, b: Part, c: Part)
    requires
        part_order(a, b) == Ordering::Less,
        part_order(b, c) == Ordering::Less,
    ensures
        part_order(a, c) == Ordering::Less,
{
    match (a, b, c) {
        (Part::Str(x), Part::Str(y), Part::Str(z)) => {
            lemma_text_transitive(x, y, z);
        },
        _ => {},
    }
}

proof fn lemma_parts_order(a: Seq<Part>, b: Seq<Part>)
    ensures
        parts_order(b, a) == flip(parts_order(a, b)),
        parts_order(a, b) == Ordering::Equal ==> a == b,
        parts_order(a, a) == Ordering::Equal,
    decreases a.len(),
{
    if a.len() > 0 {
        lemma_parts_order(a.drop_first(), a.drop_first());
        lemma_part_order(a[0], a[0]);
        if b.len() > 0 {
            lemma_part_order(a[0], b[0]);
            lemma_parts_order(a.drop_first(), b.drop_first());
            if parts_order(a, b) == Ordering::Equal {
                assert forall|k: int| 0 <= k < a.len() implies a[k] == b[k] by {
                    if k > 0 {
                        assert(a[k] == a.drop_first()[k - 1]);
                        assert(b[k] == b.drop_first()[k - 1]);
                    }
                }
                assert(a =~= b);
            }
        }
    }
}

proof fn lemma_parts_transitive(a: Seq<Part>, b: Seq<Part>, c: Seq<Part>)
    requires
        parts_order(a, b) == Ordering::Less,
        parts_order(b, c) == Ordering::Less,
    ensures
        parts_order(a, c) == Ordering::Less,
    decreases a.len(),
{
    if b.len() > 0 && c.len() > 0 {
        lemma_part_order(b[0], c[0]);
    }
    if a.len() > 0 && b.len() > 0 {
        lemma_part_order(a[0], b[0]);
    }
    if a.len() > 0 && b.len() > 0 && c.len() > 0 {
        lemma_part_order(a[0], c[0]);
        if part_order(a[0], b[0]) == Ordering::Less && part_order(b[0], c[0]) == Ordering::Less {
            lemma_part_transitive(a[0], b[0], c[0]);
        }
        if part_order(a[0], b[0]) == Ordering::Equal && part_order(b[0], c[0])
            == Ordering::Equal {
            lemma_parts_transitive(a.drop_first(), b.drop_first(), c.drop_first());
        }
    }
}

/// Every string is version-equal to itself.
pub proof fn version_order_reflexive(a: Seq<char>)
    ensures
        version_order(a, a) == Ordering::Equal,
{
    lemma_parts_order(parts(a), parts(a));
}

/// Comparing the other way round gives the opposite answer.
pub proof fn version_order_antisymmetric(a: Seq<char>, b: Seq<char>)
    ensures
        version_order(b, a) == flip(version_order(a, b)),
{
    lemma_parts_order(parts(a), parts(b));
}

/// Version order is transitive.
pub proof fn version_order_transitive(a: Seq<char>, b: Seq<char>, c: Seq<char>)
    requires
        version_order(a, b) == Ordering::Less,
        version_order(b, c) == Ordering::Less,
    ensures
        version_order(a, c) == Ordering::Less,
{
    lemma_parts_transitive(parts(a), parts(b), parts(c));
}

/// Version-equal strings compare alike with every other string.
pub proof fn version_order_equal_substitutes(a: Seq<char>, b: Seq<char>, c: Seq<char>)
    requires
        version_order(a, b) == Ordering::Equal,
    ensures
        version_order(a, c) == version_order(b, c),
{
    lemma_parts_order(parts(a), parts(b));
}

pub open spec fn is_ascii_alnum(c: char) -> bool {
    is_ascii_digit(c) || ('a' <= c && c <= 'z') || ('A' <= c && c <= 'Z')
}

proof fn lemma_scan_tail(v: Seq<char>, c: char, s: Seq<char>, k: int)
    requires
        is_sep(c),
        0 <= k <= s.len(),
        forall|q: int| 0 <= q < s.len() ==> !is_sep(#[trigger] s[q]),
    ensures
        scan_pieces(v + seq![c] + s.take(k)) == (pieces(v), s.take(k)),
    decreases k,
{
    let w = v + seq![c];
    if k == 0 {
        assert(w + s.take(0) =~= w);
        assert(w.drop_last() =~= v);
    } else {
        lemma_scan_tail(v, c, s, k - 1);
        assert((w + s.take(k)).drop_last() =~= w + s.take(k - 1));
        assert(s.take(k - 1).push(s[k - 1]) =~= s.take(k));
    }
}

/// Appending a separator and a piece to a text appends that piece to its
/// pieces.
proof fn lemma_pieces_append(v: Seq<char>, c: char, s: Seq<char>)
    requires
        is_sep(c),
        s.len() > 0,
        forall|q: int| 0 <= q < s.len() ==> !is_sep(#[trigger] s[q]),
    ensures
        pieces(v + seq![c] + s) == pieces(v).push(s),
{
    lemma_scan_tail(v, c, s, s.len() as int);
    assert(s.take(s.len() as int) =~= s);
}

proof fn lemma_nat_part(m: nat)
    ensures
        all_digits(nat_text(m)),
        digits_number(nat_text(m)) == m,
    decreases m,
{
    let t = nat_text(m);
    let d = (m % 10) as int;
    assert(t.last() == digit_char(d));
    assert(t.last() as int == d + 48);
    if m < 10 {
        assert(t.drop_last() =~= Seq::<char>::empty());
        assert(digits_number(t) == digits_number(t.drop_last()) * 10 + (t.last() as int - 48) as nat);
    } else {
        lemma_nat_part(m / 10);
        let h = nat_text(m / 10);
        assert(t.drop_last() =~= h);
        assert(digits_number(t) == digits_number(h) * 10 + (t.last() as int - 48) as nat);
        assert(digits_number(t) == m);
        assert forall|k: int| 0 <= k < t.len() implies is_ascii_digit(#[trigger] t[k]) by {
            if k < h.len() {
                assert(t[k] == h[k]);
            }
        }
    }
}

/// The decimal text of a `u64` is read as that number.
proof fn lemma_number_part(n: u64)
    ensures
        part_of(u64_text(n)) == Part::Num(n),
        u64_text(n).len() > 0,
        forall|q: int| 0 <= q < u64_text(n).len() ==> !is_sep(#[trigger] u64_text(n)[q]),
        !is_ws(u64_text(n).last()),
{
    lemma_nat_part(n as nat);
    assert(is_ascii_digit(u64_text(n)[u64_text(n).len() - 1]));
}

/// Appending a separator and a piece to a trimmed text appends the piece's
/// component to its components.
proof fn lemma_parts_append(v: Seq<char>, c: char, s: Seq<char>)
    requires
        v == trim(v),
        is_sep(c),
        s.len() > 0,
        forall|q: int| 0 <= q < s.len() ==> !is_sep(#[trigger] s[q]),
        !is_ws(s.last()),
    ensures
        parts(v + seq![c] + s) == parts(v).push(part_of(s)),
{
    let x = v + seq![c] + s;
    if v.len() > 0 {
        lemma_trimmed_ends(v);
        assert(x[0] == v[0]);
    } else {
        assert(x[0] == c);
    }
    assert(x.last() == s.last());
    lemma_trim_keeps(x);
    lemma_pieces_append(v, c, s);
    assert(pieces(v).push(s).map_values(|p: Seq<char>| part_of(p)) =~= pieces(v).map_values(
        |p: Seq<char>| part_of(p),
    ).push(part_of(s)));
}

/// One more component at the end: greater when it is a number, smaller when
/// it is a text.
proof fn lemma_parts_order_extend(a: Seq<Part>, x: Part)
    ensures
        parts_order(a.push(x), a) == if x is Num {
            Ordering::Greater
        } else {
            Ordering::Less
        },
    decreases a.len(),
{
    if a.len() > 0 {
        lemma_part_order(a[0], a[0]);
        assert(a.push(x).drop_first() =~= a.drop_first().push(x));
        lemma_parts_order_extend(a.drop_first(), x);
    }
}

/// A trailing text component sorts below the shorter version
/// (`1.0-rc1 < 1.0`).
pub proof fn version_order_trailing_text(v: Seq<char>, c: char, s: Seq<char>)
    requires
        v == trim(v),
        is_sep(c),
        s.len() > 0,
        forall|q: int| 0 <= q < s.len() ==> is_ascii_alnum(#[trigger] s[q]),
        exists|q: int| 0 <= q < s.len() && !is_ascii_digit(#[trigger] s[q]),
    ensures
        version_order(v + seq![c] + s, v) == Ordering::Less,
{
    assert(is_ascii_alnum(s[s.len() - 1]));
    lemma_parts_append(v, c, s);
    assert(!all_digits(s));
    lemma_parts_order_extend(parts(v), part_of(s));
}

/// A trailing numeric component sorts above the shorter version
/// (`1.0.1 > 1.0`).
pub proof fn version_order_trailing_number(v: Seq<char>, c: char, n: u64)
    requires
        v == trim(v),
        is_sep(c),
    ensures
        version_order(v + seq![c] + u64_text(n), v) == Ordering::Greater,
{
    lemma_number_part(n);
    lemma_parts_append(v, c, u64_text(n));
    lemma_parts_order_extend(parts(v), part_of(u64_text(n)));
}

/// `a` is a proper prefix of `b`.
pub open spec fn proper_prefix(a: Seq<char>, b: Seq<char>) -> bool {
    a.len() < b.len() && b.take(a.len() as int) == a
}

/// `a` comes before `b` in lexicographic order, as std orders strings: a
/// proper prefix comes first, and otherwise the first differing character
/// decides.
pub open spec fn lex_before(a: Seq<char>, b: Seq<char>) -> bool {
    ||| proper_prefix(a, b)
    ||| exists|k: int|
        0 <= k < a.len() && k < b.len() && a.take(k) == b.take(k) && #[trigger] a[k] < b[k]
}

proof fn lemma_lex_before_step(a: Seq<char>, b: Seq<char>)
    requires
        a.len() > 0,
        b.len() > 0,
        a[0] == b[0],
    ensures
        lex_before(a, b) == lex_before(a.drop_first(), b.drop_first()),
{
    let a1 = a.drop_first();
    let b1 = b.drop_first();
    if proper_prefix(a, b) {
        assert(b1.take(a1.len() as int) =~= b.take(a.len() as int).drop_first());
    }
    if proper_prefix(a1, b1) {
        assert(b.take(a.len() as int) =~= seq![b[0]] + b1.take(a1.len() as int));
        assert(a =~= seq![a[0]] + a1);
    }
    if exists|k: int|
        0 <= k < a.len() && k < b.len() && a.take(k) == b.take(k) && #[trigger] a[k] < b[k] {
        let k = choose|k: int|
            0 <= k < a.len() && k < b.len() && a.take(k) == b.take(k) && #[trigger] a[k] < b[k];
        assert(k != 0);
        assert(a1.take(k - 1) =~= a.take(k).drop_first());
        assert(b1.take(k - 1) =~= b.take(k).drop_first());
        assert(a1[k - 1] < b1[k - 1]);
    }
    if exists|k: int|
        0 <= k < a1.len() && k < b1.len() && a1.take(k) == b1.take(k) && #[trigger] a1[k] < b1[k] {
        let k = choose|k: int|
            0 <= k < a1.len() && k < b1.len() && a1.take(k) == b1.take(k) && #[trigger] a1[k]
                < b1[k];
        assert(a.take(k + 1) =~= seq![a[0]] + a1.take(k));
        assert(b.take(k + 1) =~= seq![b[0]] + b1.take(k));
        assert(a[k + 1] < b[k + 1]);
    }
}

proof fn lemma_lex_before_head(a: Seq<char>, b: Seq<char>)
    requires
        a.len() > 0,
        b.len() > 0,
        a[0] != b[0],
    ensures
        lex_before(a, b) == (a[0] < b[0]),
{
    if a[0] < b[0] {
        assert(a.take(0) =~= b.take(0));
        assert(a[0] < b[0]);
    } else {
        if proper_prefix(a, b) {
            assert(b.take(a.len() as int)[0] == b[0]);
        }
        if exists|k: int|
            0 <= k < a.len() && k < b.len() && a.take(k) == b.take(k) && #[trigger] a[k] < b[k] {
            let k = choose|k: int|
                0 <= k < a.len() && k < b.len() && a.take(k) == b.take(k) && #[trigger] a[k]
                    < b[k];
            if k > 0 {
                assert(a.take(k)[0] == b.take(k)[0]);
            }
        }
    }
}

/// Text components compare in std's lexicographic string order: before
/// exactly when lexicographically before, equal exactly when equal.
pub proof fn text_order_is_lexicographic(a: Seq<char>, b: Seq<char>)
    ensures
        (text_order(a, b) == Ordering::Less) == lex_before(a, b),
        (text_order(a, b) == Ordering::Equal) == (a == b),
    decreases a.len(),
{
    lemma_text_order(a, b);
    lemma_text_order(a, a);
    if a.len() == 0 {
        if b.len() > 0 {
            assert(b.take(0) =~= a);
        }
    } else if b.len() == 0 {
    } else if a[0] != b[0] {
        lemma_lex_before_head(a, b);
    } else {
        text_order_is_lexicographic(a.drop_first(), b.drop_first());
        lemma_lex_before_step(a, b);
        if a.drop_first() == b.drop_first() {
            assert(a =~= b);
        }
    }
}

/// A text is ordered before every longer text it begins.
pub proof fn text_order_prefix_first(a: Seq<char>, s: Seq<char>)
    requires
        s.len() > 0,
    ensures
        text_order(a, a + s) == Ordering::Less,
{
    text_order_is_lexicographic(a, a + s);
    lemma_prefix_of_concat(a, s);
}

proof fn lemma_prefix_of_concat(a: Seq<char>, s: Seq<char>)
    requires
        s.len() > 0,
    ensures
        proper_prefix(a, a + s),
{
    assert((a + s).take(a.len() as int) =~= a);
}

proof fn lemma_parts_order_last(p: Seq<Part>, x: Part, y: Part)
    ensures
        parts_order(p.push(x), p.push(y)) == part_order(x, y),
    decreases p.len(),
{
    if p.len() > 0 {
        lemma_part_order(p[0], p[0]);
        assert(p.push(x).drop_first() =~= p.drop_first().push(x));
        assert(p.push(y).drop_first() =~= p.drop_first().push(y));
        assert(p.push(x)[0] == p[0] && p.push(y)[0] == p[0]);
        lemma_parts_order_last(p.drop_first(), x, y);
        assert(parts_order(p.push(x), p.push(y)) == parts_order(p.drop_first().push(x), p.drop_first().push(y)));
    } else {
        assert(p.push(x).drop_first() =~= Seq::<Part>::empty());
        assert(p.push(y).drop_first() =~= Seq::<Part>::empty());
        assert(p.push(x)[0] == x && p.push(y)[0] == y);
        assert(parts_order(Seq::<Part>::empty(), Seq::<Part>::empty()) == Ordering::Equal);
    }
}

/// Two versions that differ only in a last text component compare as those
/// texts do in lexicographic order (`1.0-beta < 1.0-beta2`).
pub proof fn version_order_last_texts(v: Seq<char>, c: char, a: Seq<char>, b: Seq<char>)
    requires
        v == trim(v),
        is_sep(c),
        a.len() > 0,
        b.len() > 0,
        forall|q: int| 0 <= q < a.len() ==> is_ascii_alnum(#[trigger] a[q]),
        forall|q: int| 0 <= q < b.len() ==> is_ascii_alnum(#[trigger] b[q]),
        exists|q: int| 0 <= q < a.len() && !is_ascii_digit(#[trigger] a[q]),
        exists|q: int| 0 <= q < b.len() && !is_ascii_digit(#[trigger] b[q]),
    ensures
        (version_order(v + seq![c] + a, v + seq![c] + b) == Ordering::Less) == lex_before(a, b),
        (version_order(v + seq![c] + a, v + seq![c] + b) == Ordering::Equal) == (a == b),
{
    assert(is_ascii_alnum(a[a.len() - 1]));
    assert(is_ascii_alnum(b[b.len() - 1]));
    lemma_parts_append(v, c, a);
    lemma_parts_append(v, c, b);
    assert(!all_digits(a));
    assert(!all_digits(b));
    lemma_parts_order_last(parts(v), part_of(a), part_of(b));
    text_order_is_lexicographic(a, b);
}

} // verus!
