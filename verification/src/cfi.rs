//! CFI (Canonical Fragment Identifier) values and their textual form.
//!
//! Format: `epubcfi(/6/4!/4/2/1:0)`:
//! - `/6/4` - spine position (package document path)
//! - `!` - step into referenced document
//! - `/4/2/1` - path within document
//! - `:0` - character offset
//!
//! Temporal (`~`) and spatial (`@`) offsets are numbers with a fractional
//! part; they are kept here as the decimal text they were written with.

use std::cmp::Ordering;
use vstd::prelude::*;

use crate::text::{chars_of, push_all, string_from_chars};

verus! {

/// A single step in a CFI path
#[derive(Debug)]
pub struct CfiStep {
    /// The index at this level (1-based in CFI, stored as-is)
    pub index: usize,
    /// Optional ID assertion
    pub id: Option<String>,
}

/// A CFI: a spine item, a path within its document and optional offsets
/// at the final position.
#[derive(Debug)]
pub struct Cfi {
    /// Index into the spine (0-based)
    pub spine_index: usize,
    /// Path within the document
    pub path: Vec<CfiStep>,
    /// Character offset at the final position
    pub character_offset: Option<usize>,
    /// Temporal offset (for audio/video), as written
    pub temporal_offset: Option<String>,
    /// Spatial offset (x, y percentages), as written
    pub spatial_offset: Option<(String, String)>,
}

/// A CFI range: `epubcfi(parent,start,end)`, where the full start point is
/// `parent + start` and the full end point is `parent + end`.
#[derive(Debug)]
pub struct CfiRange {
    pub start: Cfi,
    pub end: Cfi,
}

// ---------------------------------------------------------------------------
// Decimal numbers
// ---------------------------------------------------------------------------

/// The ASCII digit for `d < 10`.
pub open spec fn digit_char(d: nat) -> char {
    if d == 0 {
        '0'
    } else if d == 1 {
        '1'
    } else if d == 2 {
        '2'
    } else if d == 3 {
        '3'
    } else if d == 4 {
        '4'
    } else if d == 5 {
        '5'
    } else if d == 6 {
        '6'
    } else if d == 7 {
        '7'
    } else if d == 8 {
        '8'
    } else {
        '9'
    }
}

/// Decimal representation of `n`, without leading zeros.
pub open spec fn decimal(n: nat) -> Seq<char>
    decreases n,
{
    if n < 10 {
        seq![digit_char(n)]
    } else {
        decimal(n / 10).push(digit_char(n % 10))
    }
}

fn digit_of(d: usize) -> (c: char)
    requires
        d < 10,
    ensures
        c == digit_char(d as nat),
{
    match d {
        0 => '0',
        1 => '1',
        2 => '2',
        3 => '3',
        4 => '4',
        5 => '5',
        6 => '6',
        7 => '7',
        8 => '8',
        _ => '9',
    }
}

/// Append the decimal form of `n`.
pub fn push_decimal(out: &mut Vec<char>, n: usize)
    ensures
        final(out)@ == old(out)@ + decimal(n as nat),
    decreases n,
{
    if n >= 10 {
        push_decimal(out, n / 10);
    }
    out.push(digit_of(n % 10));
    proof {
        if n >= 10 {
            assert(decimal(n as nat) == decimal((n / 10) as nat).push(digit_char((n % 10) as nat)));
        }
    }
}

// ---------------------------------------------------------------------------
// Textual form
// ---------------------------------------------------------------------------

/// `/index` or `/index[id]`.
pub open spec fn step_text(s: CfiStep) -> Seq<char> {
    seq!['/'] + decimal(s.index as nat) + match s.id {
        Some(id) => seq!['['] + id@ + seq![']'],
        None => Seq::<char>::empty(),
    }
}

/// The steps one after another.
pub open spec fn steps_text(steps: Seq<CfiStep>) -> Seq<char>
    decreases steps.len(),
{
    if steps.len() == 0 {
        Seq::<char>::empty()
    } else {
        steps_text(steps.drop_last()) + step_text(steps.last())
    }
}

/// `:offset` when there is one.
pub open spec fn offset_text(o: Option<usize>) -> Seq<char> {
    match o {
        Some(n) => seq![':'] + decimal(n as nat),
        None => Seq::<char>::empty(),
    }
}

/// `epubcfi(/6/N` for spine item `spine_index`, where `N = (spine_index + 1) * 2`.
pub open spec fn spine_prefix(spine_index: nat) -> Seq<char> {
    "epubcfi(/6/"@ + decimal((spine_index + 1) * 2)
}

/// The textual form of a spine-level point CFI.
pub open spec fn spine_cfi_text(spine_index: nat) -> Seq<char> {
    spine_prefix(spine_index) + seq![')']
}

/// `~t` when there is a temporal offset.
pub open spec fn temporal_text(t: Option<String>) -> Seq<char> {
    match t {
        Some(x) => seq!['~'] + x@,
        None => Seq::<char>::empty(),
    }
}

/// `@x:y` when there is a spatial offset.
pub open spec fn spatial_text(p: Option<(String, String)>) -> Seq<char> {
    match p {
        Some(xy) => seq!['@'] + xy.0@ + seq![':'] + xy.1@,
        None => Seq::<char>::empty(),
    }
}

/// The textual form of a CFI.
pub open spec fn cfi_text(c: Cfi) -> Seq<char> {
    spine_prefix(c.spine_index as nat) + if c.path@.len() > 0 || c.character_offset is Some {
        seq!['!'] + steps_text(c.path@) + offset_text(c.character_offset) + temporal_text(c.temporal_offset)
            + spatial_text(c.spatial_offset)
    } else {
        Seq::<char>::empty()
    } + seq![')']
}

/// Whether two steps are the same step.
pub open spec fn same_step(a: CfiStep, b: CfiStep) -> bool {
    a.index == b.index && match (a.id, b.id) {
        (Some(x), Some(y)) => x@ == y@,
        (None, None) => true,
        _ => false,
    }
}

/// Length of the longest common step prefix of `s` and `e`, counted from `k`.
pub open spec fn common_prefix_from(s: Seq<CfiStep>, e: Seq<CfiStep>, k: int) -> int
    decreases s.len() - k,
{
    if k < 0 || k >= s.len() || k >= e.len() || !same_step(s[k], e[k]) {
        k
    } else {
        common_prefix_from(s, e, k + 1)
    }
}

/// Where a range's paths split into parent and local parts: the longest
/// common prefix, keeping at least one step in each local part when the
/// paths are equal.
pub open spec fn range_split(s: Seq<CfiStep>, e: Seq<CfiStep>) -> int {
    let lcp = common_prefix_from(s, e, 0);
    if lcp == s.len() && lcp == e.len() && lcp > 0 {
        lcp - 1
    } else {
        lcp
    }
}

/// The textual form of a range from its parts: the spine item, and each
/// end's steps and offset.
pub open spec fn range_text_parts(
    spine_index: nat,
    s: Seq<CfiStep>,
    so: Option<usize>,
    e: Seq<CfiStep>,
    eo: Option<usize>,
) -> Seq<char> {
    let lcp = range_split(s, e);
    spine_prefix(spine_index) + seq!['!'] + steps_text(s.take(lcp)) + seq![','] + steps_text(
        s.skip(lcp),
    ) + offset_text(so) + seq![','] + steps_text(e.skip(lcp)) + offset_text(eo) + seq![')']
}

/// The textual form of a range.
pub open spec fn range_text(r: CfiRange) -> Seq<char> {
    range_text_parts(
        r.start.spine_index as nat,
        r.start.path@,
        r.start.character_offset,
        r.end.path@,
        r.end.character_offset,
    )
}

pub(crate) proof fn lemma_common_prefix(s: Seq<CfiStep>, e: Seq<CfiStep>, k: int)
    requires
        0 <= k <= s.len(),
        k <= e.len(),
    ensures
        k <= common_prefix_from(s, e, k) <= s.len(),
        common_prefix_from(s, e, k) <= e.len(),
    decreases s.len() - k,
{
    if k < s.len() && k < e.len() && same_step(s[k], e[k]) {
        lemma_common_prefix(s, e, k + 1);
    }
}

/// `steps_text(s.subrange(a, b))` extended by one step.
proof fn lemma_steps_text_push(s: Seq<CfiStep>, a: int, b: int)
    requires
        0 <= a <= b < s.len(),
    ensures
        steps_text(s.subrange(a, b + 1)) == steps_text(s.subrange(a, b)) + step_text(s[b]),
{
    assert(s.subrange(a, b + 1).drop_last() =~= s.subrange(a, b));
}

fn push_step(out: &mut Vec<char>, st: &CfiStep)
    ensures
        final(out)@ == old(out)@ + step_text(*st),
{
    out.push('/');
    push_decimal(out, st.index);
    match &st.id {
        Some(id) => {
            out.push('[');
            let idc = chars_of(id.as_str());
            push_all(out, &idc);
            out.push(']');
        },
        None => {},
    }
    proof {
        assert(final(out)@ =~= old(out)@ + step_text(*st));
    }
}

/// Append the steps `steps[a..b]`.
fn push_steps(out: &mut Vec<char>, steps: &Vec<CfiStep>, a: usize, b: usize)
    requires
        a <= b <= steps@.len(),
    ensures
        final(out)@ == old(out)@ + steps_text(steps@.subrange(a as int, b as int)),
{
    let mut k: usize = a;
    assert(steps@.subrange(a as int, a as int) =~= Seq::<CfiStep>::empty());
    while k < b
        invariant
            a <= k <= b <= steps@.len(),
            out@ == old(out)@ + steps_text(steps@.subrange(a as int, k as int)),
        decreases b - k,
    {
        push_step(out, &steps[k]);
        proof {
            lemma_steps_text_push(steps@, a as int, k as int);
            assert(out@ =~= old(out)@ + steps_text(steps@.subrange(a as int, k + 1)));
        }
        k += 1;
    }
}

fn push_offset(out: &mut Vec<char>, o: Option<usize>)
    ensures
        final(out)@ == old(out)@ + offset_text(o),
{
    match o {
        Some(n) => {
            out.push(':');
            push_decimal(out, n);
            assert(final(out)@ =~= old(out)@ + offset_text(o));
        },
        None => {
            assert(final(out)@ =~= old(out)@ + offset_text(o));
        },
    }
}

fn push_spine_prefix(out: &mut Vec<char>, spine_index: usize)
    requires
        (spine_index + 1) * 2 <= usize::MAX,
    ensures
        final(out)@ == old(out)@ + spine_prefix(spine_index as nat),
{
    let p = chars_of("epubcfi(/6/");
    push_all(out, &p);
    push_decimal(out, (spine_index + 1) * 2);
    assert(final(out)@ =~= old(out)@ + spine_prefix(spine_index as nat));
}

pub(crate) fn same_step_exec(a: &CfiStep, b: &CfiStep) -> (r: bool)
    ensures
        r == same_step(*a, *b),
{
    if a.index != b.index {
        return false;
    }
    match (&a.id, &b.id) {
        (Some(x), Some(y)) => x.eq(y),
        (None, None) => true,
        _ => false,
    }
}

impl CfiStep {
    /// A step without an ID assertion.
    pub fn new(index: usize) -> (s: CfiStep)
        ensures
            s.index == index,
            s.id is None,
    {
        CfiStep { index, id: None }
    }
}

impl Cfi {
    /// Create a CFI for a spine index
    pub fn from_spine_index(index: usize) -> (c: Cfi)
        ensures
            c.spine_index == index,
            c.path@.len() == 0,
            c.character_offset is None,
            c.temporal_offset is None,
            c.spatial_offset is None,
    {
        Cfi { spine_index: index, path: Vec::new(), character_offset: None, temporal_offset: None, spatial_offset: None }
    }

    /// Create a CFI with a path
    pub fn from_path(spine_index: usize, path: Vec<CfiStep>) -> (c: Cfi)
        ensures
            c.spine_index == spine_index,
            c.path@ == path@,
            c.character_offset is None,
            c.temporal_offset is None,
            c.spatial_offset is None,
    {
        Cfi { spine_index, path, character_offset: None, temporal_offset: None, spatial_offset: None }
    }

    /// The textual form, `epubcfi(...)`.
    pub fn to_string(&self) -> (s: String)
        requires
            (self.spine_index + 1) * 2 <= usize::MAX,
        ensures
            s@ == cfi_text(*self),
    {
        let mut out: Vec<char> = Vec::new();
        push_spine_prefix(&mut out, self.spine_index);
        if self.path.len() > 0 || self.character_offset.is_some() {
            out.push('!');
            push_steps(&mut out, &self.path, 0, self.path.len());
            push_offset(&mut out, self.character_offset);
            match &self.temporal_offset {
                Some(t) => {
                    out.push('~');
                    let tc = chars_of(t.as_str());
                    push_all(&mut out, &tc);
                },
                None => {},
            }
            match &self.spatial_offset {
                Some((x, y)) => {
                    out.push('@');
                    let xc = chars_of(x.as_str());
                    push_all(&mut out, &xc);
                    out.push(':');
                    let yc = chars_of(y.as_str());
                    push_all(&mut out, &yc);
                },
                None => {},
            }
            assert(self.path@.subrange(0, self.path@.len() as int) =~= self.path@);
        }
        out.push(')');
        proof {
            assert(out@ =~= cfi_text(*self));
        }
        string_from_chars(out.as_slice())
    }

    /// Compare two CFIs for ordering: spine index, then the step indices
    /// one by one, then path length (shorter first), then character offset
    /// (none first).
    pub fn compare(&self, other: &Cfi) -> (o: Ordering)
        ensures
            o == ordering_of(cfi_sign(*self, *other)),
    {
        if self.spine_index < other.spine_index {
            return Ordering::Less;
        } else if self.spine_index > other.spine_index {
            return Ordering::Greater;
        }
        let n = if self.path.len() < other.path.len() {
            self.path.len()
        } else {
            other.path.len()
        };
        let mut k: usize = 0;
        while k < n
            invariant
                n <= self.path@.len(),
                n <= other.path@.len(),
                n == self.path@.len() || n == other.path@.len(),
                k <= n,
                self.spine_index == other.spine_index,
                path_sign(self.path@, other.path@, 0) == path_sign_at(self.path@, other.path@, k),
            decreases n - k,
        {
            let a = self.path[k].index;
            let b = other.path[k].index;
            if a < b {
                return Ordering::Less;
            } else if a > b {
                return Ordering::Greater;
            }
            k += 1;
        }
        if self.path.len() < other.path.len() {
            return Ordering::Less;
        } else if self.path.len() > other.path.len() {
            return Ordering::Greater;
        }
        match (self.character_offset, other.character_offset) {
            (Some(a), Some(b)) => if a < b {
                Ordering::Less
            } else if a > b {
                Ordering::Greater
            } else {
                Ordering::Equal
            },
            (None, Some(_)) => Ordering::Less,
            (Some(_), None) => Ordering::Greater,
            (None, None) => Ordering::Equal,
        }
    }
}

/// Sign of the order of two step paths by their indices from `k` on (then
/// by length): -1, 0 or 1.
pub open spec fn path_sign(a: Seq<CfiStep>, b: Seq<CfiStep>, k: int) -> int
    decreases a.len() - k,
{
    if k < 0 || k >= a.len() || k >= b.len() {
        if a.len() < b.len() {
            -1
        } else if a.len() > b.len() {
            1
        } else {
            0
        }
    } else if a[k].index < b[k].index {
        -1
    } else if a[k].index > b[k].index {
        1
    } else {
        path_sign(a, b, k + 1)
    }
}

/// [`path_sign`] from a machine index.
pub open spec fn path_sign_at(a: Seq<CfiStep>, b: Seq<CfiStep>, k: usize) -> int {
    path_sign(a, b, k as int)
}

/// Sign of the order of two optional offsets (none first).
pub open spec fn offset_sign(a: Option<usize>, b: Option<usize>) -> int {
    match (a, b) {
        (Some(x), Some(y)) => if x < y {
            -1
        } else if x > y {
            1
        } else {
            0
        },
        (None, Some(_)) => -1,
        (Some(_), None) => 1,
        (None, None) => 0,
    }
}

/// Sign of the order of two CFIs (see [`Cfi::compare`]).
pub open spec fn cfi_sign(a: Cfi, b: Cfi) -> int {
    if a.spine_index < b.spine_index {
        -1
    } else if a.spine_index > b.spine_index {
        1
    } else if path_sign(a.path@, b.path@, 0) != 0 {
        path_sign(a.path@, b.path@, 0)
    } else {
        offset_sign(a.character_offset, b.character_offset)
    }
}

proof fn lemma_path_antisym(a: Seq<CfiStep>, b: Seq<CfiStep>, k: int)
    requires
        0 <= k,
    ensures
        path_sign(a, b, k) == -path_sign(b, a, k),
    decreases a.len() - k,
{
    if k < a.len() && k < b.len() && a[k].index == b[k].index {
        lemma_path_antisym(a, b, k + 1);
    }
}

proof fn lemma_path_trans(a: Seq<CfiStep>, b: Seq<CfiStep>, c: Seq<CfiStep>, k: int)
    requires
        0 <= k <= a.len(),
        k <= b.len(),
        k <= c.len(),
        path_sign(a, b, k) <= 0,
        path_sign(b, c, k) <= 0,
    ensures
        path_sign(a, c, k) <= 0,
        path_sign(a, b, k) < 0 || path_sign(b, c, k) < 0 ==> path_sign(a, c, k) < 0,
    decreases a.len() - k,
{
    if k < a.len() && k < b.len() && k < c.len() && a[k].index == b[k].index && b[k].index == c[k].index {
        lemma_path_trans(a, b, c, k + 1);
    }
}

/// CFIs are ordered both ways at once: `compare(a, b)` is the reverse of
/// `compare(b, a)`.
pub proof fn law_compare_antisymmetric(a: Cfi, b: Cfi)
    ensures
        cfi_sign(a, b) == -cfi_sign(b, a),
{
    lemma_path_antisym(a.path@, b.path@, 0);
}

/// The order of CFIs is transitive: `a <= b` and `b <= c` give `a <= c`,
/// strictly when either step is strict.
pub proof fn law_compare_transitive(a: Cfi, b: Cfi, c: Cfi)
    requires
        cfi_sign(a, b) <= 0,
        cfi_sign(b, c) <= 0,
    ensures
        cfi_sign(a, c) <= 0,
        cfi_sign(a, b) < 0 || cfi_sign(b, c) < 0 ==> cfi_sign(a, c) < 0,
{
    if a.spine_index == b.spine_index && b.spine_index == c.spine_index {
        lemma_path_antisym(a.path@, b.path@, 0);
        lemma_path_antisym(b.path@, c.path@, 0);
        if path_sign(a.path@, b.path@, 0) <= 0 && path_sign(b.path@, c.path@, 0) <= 0 {
            lemma_path_trans(a.path@, b.path@, c.path@, 0);
        }
        if path_sign(a.path@, b.path@, 0) == 0 && path_sign(b.path@, c.path@, 0) == 0 {
            lemma_path_trans(a.path@, b.path@, c.path@, 0);
            lemma_path_trans(c.path@, b.path@, a.path@, 0);
            lemma_path_antisym(a.path@, c.path@, 0);
        }
    }
}

/// Reading order puts spine items first: a position in an earlier spine
/// item comes before every position in a later one, whatever their paths
/// and offsets (so `compare` gives `Less` one way and `Greater` the other).
pub proof fn law_earlier_spine_item_first(a: Cfi, b: Cfi)
    requires
        a.spine_index < b.spine_index,
    ensures
        cfi_sign(a, b) < 0,
        cfi_sign(b, a) > 0,
        ordering_of(cfi_sign(a, b)) == Ordering::Less,
        ordering_of(cfi_sign(b, a)) == Ordering::Greater,
{
}

proof fn lemma_path_sign_from(a: Seq<CfiStep>, b: Seq<CfiStep>, j: int, k: int)
    requires
        0 <= j <= k,
        k <= a.len(),
        k <= b.len(),
        forall|i: int| 0 <= i < k ==> #[trigger] a[i].index == b[i].index,
    ensures
        path_sign(a, b, j) == path_sign(a, b, k),
    decreases k - j,
{
    if j < k {
        lemma_path_sign_from(a, b, j + 1, k);
    }
}

/// Within one spine item positions follow document order: where the paths
/// first differ the smaller step comes first, and a path that is a proper
/// prefix of the other (an enclosing element) comes first.
pub proof fn law_document_order(a: Cfi, b: Cfi, k: int)
    requires
        a.spine_index == b.spine_index,
        0 <= k <= a.path@.len(),
        k <= b.path@.len(),
        forall|i: int| 0 <= i < k ==> #[trigger] a.path@[i].index == b.path@[i].index,
        (k < a.path@.len() && k < b.path@.len() && a.path@[k].index < b.path@[k].index) || (k == a.path@.len() && k
            < b.path@.len()),
    ensures
        cfi_sign(a, b) < 0,
        cfi_sign(b, a) > 0,
{
    lemma_path_sign_from(a.path@, b.path@, 0, k);
    law_compare_antisymmetric(a, b);
}

/// At the same place, a character offset orders the points: no offset
/// first, then smaller offsets.
pub proof fn law_offset_order(a: Cfi, b: Cfi)
    requires
        a.spine_index == b.spine_index,
        a.path@ == b.path@,
        (a.character_offset is None && b.character_offset is Some) || (a.character_offset matches Some(x)
            && b.character_offset matches Some(y) && x < y),
    ensures
        cfi_sign(a, b) < 0,
{
    law_compare_reflexive(a);
}

/// Every CFI is equal to itself in the order.
pub proof fn law_compare_reflexive(a: Cfi)
    ensures
        cfi_sign(a, a) == 0,
{
    lemma_path_antisym(a.path@, a.path@, 0);
}

/// The `Ordering` with the given sign.
pub open spec fn ordering_of(sign: int) -> Ordering {
    if sign < 0 {
        Ordering::Less
    } else if sign > 0 {
        Ordering::Greater
    } else {
        Ordering::Equal
    }
}

impl CfiRange {
    /// The textual form: `epubcfi(/6/N!parent,start,end)`.
    pub fn to_string(&self) -> (s: String)
        requires
            (self.start.spine_index + 1) * 2 <= usize::MAX,
        ensures
            s@ == range_text(*self),
    {
        let sp = &self.start.path;
        let ep = &self.end.path;
        let mut lcp: usize = 0;
        proof {
            lemma_common_prefix(sp@, ep@, 0);
        }
        while lcp < sp.len() && lcp < ep.len() && same_step_exec(&sp[lcp], &ep[lcp])
            invariant
                lcp <= sp@.len(),
                lcp <= ep@.len(),
                common_prefix_from(sp@, ep@, 0) == common_prefix_from(sp@, ep@, lcp as int),
            decreases sp@.len() - lcp,
        {
            lcp += 1;
        }
        if lcp == sp.len() && lcp == ep.len() && lcp > 0 {
            lcp = lcp - 1;
        }
        let mut out: Vec<char> = Vec::new();
        push_spine_prefix(&mut out, self.start.spine_index);
        out.push('!');
        push_steps(&mut out, sp, 0, lcp);
        out.push(',');
        push_steps(&mut out, sp, lcp, sp.len());
        push_offset(&mut out, self.start.character_offset);
        out.push(',');
        push_steps(&mut out, ep, lcp, ep.len());
        push_offset(&mut out, self.end.character_offset);
        out.push(')');
        proof {
            assert(sp@.subrange(0, lcp as int) =~= sp@.take(lcp as int));
            assert(sp@.subrange(lcp as int, sp@.len() as int) =~= sp@.skip(lcp as int));
            assert(ep@.subrange(lcp as int, ep@.len() as int) =~= ep@.skip(lcp as int));
            assert(out@ =~= range_text(*self));
        }
        string_from_chars(out.as_slice())
    }

    /// Order by start point, then end point.
    pub fn compare(&self, other: &CfiRange) -> (o: Ordering)
        ensures
            o == ordering_of(
                if cfi_sign(self.start, other.start) != 0 {
                    cfi_sign(self.start, other.start)
                } else {
                    cfi_sign(self.end, other.end)
                },
            ),
    {
        match self.start.compare(&other.start) {
            Ordering::Equal => self.end.compare(&other.end),
            ord => ord,
        }
    }
}

} // verus!
