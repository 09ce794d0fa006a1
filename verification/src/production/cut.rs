use vstd::prelude::*;
use std::collections::BTreeSet;
use vstd::std_specs::iter::IteratorSpec;
use crate::production::asset::AssetKey;
use crate::production::slot::{
    SlotPool, cut_pool_get, cut_pool_get_mut, cut_pool_insert, cut_pool_new, cut_pool_remove,
    cut_slots, slot_capacity, valid_key,
};
use crate::util::iter::{
    LayeredVec, LayeredVecIter, PathIter, child_count, flatten_from, insert_before_path,
    lemma_paths_insert, paths_from, prefixed, shifted,
    lemma_at_parent, lemma_flat_elements, lemma_flatten_push, lemma_path_leads_to_element,
    lemma_paths_len, lemma_paths_nonempty, split_element_at_path,
};

verus! {

/// The errors of the cut sequence.
#[derive(Clone, Copy, Debug, PartialEq, Eq, Structural)]
pub enum CutError {
    NotFound,
    LimitExceeded,
}

pub type CutResult<T> = Result<T, CutError>;

impl CutError {
    /// The message that describes the error.
    pub fn message(&self) -> (r: &'static str)
        ensures
            r@ == self.message_spec(),
    {
        match self {
            CutError::NotFound => "cut not found",
            CutError::LimitExceeded => "cut limit exceeded",
        }
    }

    pub open spec fn message_spec(&self) -> Seq<char> {
        match self {
            CutError::NotFound => "cut not found"@,
            CutError::LimitExceeded => "cut limit exceeded"@,
        }
    }
}

/// The key of a cut in its sequence.
#[derive(Clone, Copy, Debug, PartialEq, Eq, Structural, PartialOrd, Ord, Hash)]
pub struct CutKey(u64);

impl CutKey {
    #[verifier::type_invariant]
    spec fn inv(self) -> bool {
        valid_key(self.0)
    }

    /// The number that identifies the key.
    pub closed spec fn id(self) -> u64 {
        self.0
    }

    /// Keys with the same number are the same key.
    pub proof fn lemma_id_determines(self, other: Self)
        requires
            self.id() == other.id(),
        ensures
            self == other,
    {
    }

    fn raw(self) -> (r: u64)
        ensures
            r == self.id(),
            valid_key(r),
    {
        proof {
            use_type_invariant(&self);
        }
        self.0
    }
}

/// A cut: either in the film, with the assets it uses, or removed and
/// waiting to be dropped by `CutSequence::normalize`.
pub enum Cut {
    Exists { asset_keys: BTreeSet<AssetKey> },
    Removed,
}

impl Cut {
    /// A cut that exists and uses no asset.
    pub fn new() -> (r: Self)
        ensures
            r matches Cut::Exists { asset_keys } && asset_keys@.is_empty(),
    {
        Self::default()
    }

    pub fn is_existing(&self) -> (r: bool)
        ensures
            r == (*self is Exists),
    {
        match self {
            Cut::Exists { .. } => true,
            Cut::Removed => false,
        }
    }
}

impl Default for Cut {
    fn default() -> (r: Self)
        ensures
            r matches Cut::Exists { asset_keys } && asset_keys@.is_empty(),
    {
        Cut::Exists { asset_keys: BTreeSet::new() }
    }
}

/// The greatest number that the last index of a path may reach at `depth`:
/// a cut number runs to 1000, a letter to the 27th, a sub-number to 10.
pub open spec fn level_cap(depth: nat) -> usize {
    if depth == 1 {
        999
    } else if depth == 2 {
        26
    } else {
        9
    }
}

fn level_cap_of(depth: usize) -> (r: usize)
    ensures
        r == level_cap(depth as nat),
{
    if depth == 1 {
        999
    } else if depth == 2 {
        26
    } else {
        9
    }
}

/// The position of a cut in the layered sequence: the index taken at each
/// level.
#[derive(Clone, Debug)]
pub struct CutPath(Vec<usize>);

impl View for CutPath {
    type V = Seq<usize>;

    closed spec fn view(&self) -> Seq<usize> {
        self.0@
    }
}

impl<'a> CutPath {
    fn new_unchecked(path: &[usize]) -> (r: Self)
        ensures
            r@ == path@,
    {
        CutPath(vstd::slice::slice_to_vec(path))
    }

    pub fn depth(&self) -> (r: usize)
        ensures
            r == self@.len(),
    {
        self.0.len()
    }

    pub fn path(&self) -> (r: &[usize])
        ensures
            r@ == self@,
    {
        self.0.as_slice()
    }

    /// Goes one level deeper, to the first index there.
    pub fn ascend(&mut self)
        ensures
            final(self)@ == old(self)@.push(0),
    {
        self.0.push(0)
    }

    /// Moves to the next index at the deepest level, unless that index is
    /// already at the level's cap or the path is empty.
    pub fn increment(&mut self) -> (r: CutResult<()>)
        ensures
            old(self)@.len() == 0 ==> r == Err::<(), CutError>(CutError::LimitExceeded),
            old(self)@.len() > 0 && old(self)@.last() >= level_cap(old(self)@.len()) ==> r == Err::<
                (),
                CutError,
            >(CutError::LimitExceeded),
            old(self)@.len() > 0 && old(self)@.last() < level_cap(old(self)@.len()) ==> r == Ok::<
                (),
                CutError,
            >(()),
            r is Ok ==> final(self)@ == old(self)@.update(
                old(self)@.len() - 1,
                (old(self)@.last() + 1) as usize,
            ),
            r is Err ==> final(self)@ == old(self)@,
            increment_step(old(self)@, final(self)@),
    {
        let n = self.0.len();
        if n == 0 {
            return Err(CutError::LimitExceeded);
        }
        let cap = level_cap_of(n);
        let last = self.0[n - 1];
        if last >= cap {
            return Err(CutError::LimitExceeded);
        }
        self.0.set(n - 1, last + 1);
        Ok(())
    }

    /// How the path is written: `c` and the cut number in three digits at
    /// least, then a capital letter, then `-` and a number for each deeper
    /// level; `[4, 1, 2]` is written `c005B-3`.
    pub fn to_string(&self) -> (r: String)
        requires
            self@.len() > 1 ==> self@[1] % 256 < 191,
            forall|i: int| 0 <= i < self@.len() && i != 1 ==> #[trigger] self@[i] < usize::MAX,
        ensures
            r@ == label(self@),
            self@.len() >= 1 && self@[0] < 999 ==> {
                &&& r@.len() >= 4
                &&& r@[0] == 'c'
                &&& r@[1] as u32 == 48 + (self@[0] + 1) / 100
                &&& r@[2] as u32 == 48 + (self@[0] + 1) / 10 % 10
                &&& r@[3] as u32 == 48 + (self@[0] + 1) % 10
            },
    {
        let mut s = String::new();
        let mut i: usize = 0;
        while i < self.0.len()
            invariant
                i <= self@.len(),
                s@ == label(self@.take(i as int)),
                self@.len() > 1 ==> self@[1] % 256 < 191,
                forall|j: int| 0 <= j < self@.len() && j != 1 ==> #[trigger] self@[j] < usize::MAX,
            decreases self@.len() - i,
        {
            let n = self.0[i];
            proof {
                assert(self@.take(i + 1).drop_last() =~= self@.take(i as int));
            }
            if i == 0 {
                push_char(&mut s, 'c');
                push_decimal(&mut s, n + 1, 3);
            } else if i == 1 {
                let letter = (65u8 + (n % 256) as u8) as char;
                push_char(&mut s, letter);
            } else {
                push_char(&mut s, '-');
                push_decimal(&mut s, n + 1, 0);
            }
            proof {
                assert(s@ =~= label(self@.take(i as int)) + label_part(i as int, n));
            }
            i = i + 1;
        }
        proof {
            assert(self@.take(self@.len() as int) =~= self@);
            if self@.len() >= 1 && self@[0] < 999 {
                lemma_label_cut_number(self@);
            }
        }
        s
    }

    /// The indices of the path, outermost first.
    pub fn iter(&'a self) -> (r: std::slice::Iter<'a, usize>)
        ensures
            r.remaining() == self@.as_ref(),
    {
        self.0.as_slice().iter()
    }
}

/// What `increment` may do to a path: leave it, or raise its last index by one.
pub open spec fn increment_step(before: Seq<usize>, after: Seq<usize>) -> bool {
    ||| after == before
    ||| before.len() > 0 && after == before.update(before.len() - 1, (before.last() + 1) as usize)
}

/// The number of `true` among the first `k` items.
pub open spec fn count_true(bs: Seq<bool>, k: int) -> nat
    decreases k,
{
    if k <= 0 {
        0
    } else {
        count_true(bs, k - 1) + if bs[k - 1] {
            1nat
        } else {
            0nat
        }
    }
}

/// A path built from the empty one by any run of calls, `ascend` where
/// `ascends` says so and `increment` elsewhere, is as deep as the number of
/// `ascend` calls: `increment`, whether it succeeds or not, never changes
/// the depth.
pub proof fn lemma_depth_counts_ascends(ps: Seq<Seq<usize>>, ascends: Seq<bool>)
    requires
        ps.len() == ascends.len() + 1,
        ps[0].len() == 0,
        forall|k: int| 0 <= k < ascends.len() && #[trigger] ascends[k] ==> ps[k + 1] == ps[k].push(0),
        forall|k: int|
            0 <= k < ascends.len() && !#[trigger] ascends[k] ==> increment_step(ps[k], ps[k + 1]),
    ensures
        forall|k: int| 0 <= k < ps.len() ==> #[trigger] ps[k].len() == count_true(ascends, k),
{
    assert forall|k: int| 0 <= k < ps.len() implies #[trigger] ps[k].len() == count_true(ascends, k) by {
        lemma_depth_counts_ascends_at(ps, ascends, k);
    }
}

proof fn lemma_depth_counts_ascends_at(ps: Seq<Seq<usize>>, ascends: Seq<bool>, k: int)
    requires
        ps.len() == ascends.len() + 1,
        ps[0].len() == 0,
        forall|k: int| 0 <= k < ascends.len() && #[trigger] ascends[k] ==> ps[k + 1] == ps[k].push(0),
        forall|k: int|
            0 <= k < ascends.len() && !#[trigger] ascends[k] ==> increment_step(ps[k], ps[k + 1]),
        0 <= k < ps.len(),
    ensures
        ps[k].len() == count_true(ascends, k),
    decreases k,
{
    if k > 0 {
        lemma_depth_counts_ascends_at(ps, ascends, k - 1);
        if ascends[k - 1] {
            assert(ps[k] == ps[k - 1].push(0));
        } else {
            assert(increment_step(ps[k - 1], ps[k]));
        }
    }
}

impl Default for CutPath {
    /// The empty path.
    fn default() -> (r: Self)
        ensures
            r@.len() == 0,
    {
        CutPath(Vec::new())
    }
}

/// `String::push`: appends the character.
#[verifier::external_body]
fn push_char(s: &mut String, c: char)
    ensures
        final(s)@ == old(s)@.push(c),
{
    s.push(c)
}

/// The decimal digit `d`, for `d < 10`.
pub open spec fn digit_char(d: nat) -> char {
    if d == 0 {
        '0'
    } else if d == 1 {
        '1'
    } else if d == 2 {
        '2'
    } else if d == 3 {
        '3'
    } else if d == 4 {
        '4'
    } else if d == 5 {
        '5'
    } else if d == 6 {
        '6'
    } else if d == 7 {
        '7'
    } else if d == 8 {
        '8'
    } else {
        '9'
    }
}

fn digit_of(d: usize) -> (r: char)
    requires
        d < 10,
    ensures
        r == digit_char(d as nat),
{
    if d == 0 {
        '0'
    } else if d == 1 {
        '1'
    } else if d == 2 {
        '2'
    } else if d == 3 {
        '3'
    } else if d == 4 {
        '4'
    } else if d == 5 {
        '5'
    } else if d == 6 {
        '6'
    } else if d == 7 {
        '7'
    } else if d == 8 {
        '8'
    } else {
        '9'
    }
}

/// The decimal digits of `n`, most significant first.
pub open spec fn decimal(n: nat) -> Seq<char>
    decreases n,
{
    if n < 10 {
        seq![digit_char(n)]
    } else {
        decimal(n / 10).push(digit_char(n % 10))
    }
}

/// The decimal digits of `n`, with zeros in front up to `width` characters.
pub open spec fn zero_padded(n: nat, width: nat) -> Seq<char> {
    let d = decimal(n);
    if d.len() >= width {
        d
    } else {
        Seq::new((width - d.len()) as nat, |i: int| '0') + d
    }
}

/// How the `i`-th index `n` of a path is written: `c` and the cut number,
/// three digits at least; then a capital letter; then `-` and a number.
pub open spec fn label_part(i: int, n: usize) -> Seq<char> {
    if i == 0 {
        seq!['c'] + zero_padded((n + 1) as nat, 3)
    } else if i == 1 {
        seq![((65 + n % 256) as u8) as char]
    } else {
        seq!['-'] + decimal((n + 1) as nat)
    }
}

/// How a path is written, such as `c012B-3`.
pub open spec fn label(p: Seq<usize>) -> Seq<char>
    decreases p.len(),
{
    if p.len() == 0 {
        seq![]
    } else {
        label(p.drop_last()) + label_part(p.len() - 1, p.last())
    }
}

/// A label starts with how its first index is written.
proof fn lemma_label_starts_with_first(p: Seq<usize>)
    requires
        p.len() >= 1,
    ensures
        label(p).len() >= label_part(0, p[0]).len(),
        label(p).take(label_part(0, p[0]).len() as int) == label_part(0, p[0]),
    decreases p.len(),
{
    if p.len() == 1 {
        assert(p.drop_last() =~= Seq::<usize>::empty());
        assert(label(p.drop_last()) =~= Seq::<char>::empty());
        assert(label(p) =~= label_part(0, p[0]));
    } else {
        lemma_label_starts_with_first(p.drop_last());
        assert(p.drop_last()[0] == p[0]);
        let h = label_part(0, p[0]);
        assert(label(p).take(h.len() as int) =~= label(p.drop_last()).take(h.len() as int));
    }
}

/// The character of the decimal digit `d` is the one at `'0' + d`.
proof fn lemma_digit_char_code(d: nat)
    requires
        d < 10,
    ensures
        digit_char(d) as u32 == 48 + d,
{
}

/// A cut's label starts with `c` and then its cut number, the first index
/// plus one, in three decimal digits with zeros in front: the first cut is
/// `c001`, the tenth `c010`, the 99th `c099`. This holds of the label that
/// `CutPath::to_string` gives.
pub proof fn lemma_label_cut_number(p: Seq<usize>)
    requires
        p.len() >= 1,
        p[0] < 999,
    ensures
        label(p).len() >= 4,
        label(p)[0] == 'c',
        label(p)[1] as u32 == 48 + (p[0] + 1) / 100,
        label(p)[2] as u32 == 48 + (p[0] + 1) / 10 % 10,
        label(p)[3] as u32 == 48 + (p[0] + 1) % 10,
{
    lemma_label_starts_with_first(p);
    let x: nat = (p[0] + 1) as nat;
    let z = zero_padded(x, 3);
    let want = seq![digit_char(x / 100), digit_char(x / 10 % 10), digit_char(x % 10)];
    reveal_with_fuel(decimal, 3);
    if x < 10 {
        assert(decimal(x) =~= seq![digit_char(x)]);
        assert(z =~= want);
    } else if x < 100 {
        assert(decimal(x / 10) =~= seq![digit_char(x / 10)]);
        assert(decimal(x) =~= seq![digit_char(x / 10), digit_char(x % 10)]);
        assert(z =~= want);
    } else {
        assert(decimal(x / 100) =~= seq![digit_char(x / 100)]);
        assert(x / 10 / 10 == x / 100);
        assert(decimal(x / 10) =~= seq![digit_char(x / 100), digit_char(x / 10 % 10)]);
        assert(decimal(x) =~= want);
        assert(z =~= want);
    }
    let h = label_part(0, p[0]);
    assert(h =~= seq!['c'] + want);
    assert(label(p)[0] == label(p).take(h.len() as int)[0]);
    assert(label(p)[0] == h[0]);
    assert(label(p)[1] == h[1]);
    assert(label(p)[2] == h[2]);
    assert(label(p)[3] == h[3]);
    lemma_digit_char_code(x / 100);
    lemma_digit_char_code(x / 10 % 10);
    lemma_digit_char_code(x % 10);
}

/// Appends the decimal digits of `n`, with zeros in front up to `width`.
fn push_decimal(s: &mut String, n: usize, width: usize)
    ensures
        final(s)@ == old(s)@ + zero_padded(n as nat, width as nat),
{
    let mut digits: Vec<char> = Vec::new();
    let mut m = n;
    loop
        invariant_except_break
            digits@.len() == 0 ==> m == n,
            digits@.len() > 0 ==> m > 0 && decimal(n as nat) == decimal(m as nat) + digits@.reverse(),
        ensures
            decimal(n as nat) == digits@.reverse(),
        decreases m, 1nat - (if digits@.len() > 0 { 1nat } else { 0nat }),
    {
        let d = m % 10;
        let c = digit_of(d);
        let ghost before = digits@;
        proof {
            assert(before.push(c).reverse() =~= seq![c] + before.reverse());
            if m >= 10 {
                assert(decimal(m as nat) == decimal((m / 10) as nat).push(c));
                assert(decimal((m / 10) as nat).push(c) + before.reverse() =~= decimal((m / 10) as nat)
                    + before.push(c).reverse());
            } else {
                assert(d == m);
                assert(decimal(m as nat) == seq![c]);
                if before.len() == 0 {
                    assert(before.reverse() =~= Seq::<char>::empty());
                }
                assert(decimal(n as nat) =~= seq![c] + before.reverse());
            }
        }
        digits.push(c);
        m = m / 10;
        if m == 0 {
            break;
        }
    }
    let ghost d = digits@.reverse();
    let ghost pad: nat = if d.len() >= width { 0 } else { (width - d.len()) as nat };
    let mut zeros: usize = 0;
    while digits.len() < width
        invariant
            digits@ == decimal(n as nat).reverse() + Seq::new(zeros as nat, |i: int| '0'),
            zeros <= pad,
            pad + d.len() == if d.len() >= width { d.len() } else { width as nat },
            d == decimal(n as nat),
            d.len() + zeros == digits@.len(),
        decreases width - digits@.len(),
    {
        digits.push('0');
        zeros = zeros + 1;
        proof {
            assert(decimal(n as nat).reverse() + Seq::new(zeros as nat, |i: int| '0') =~= digits@);
        }
    }
    proof {
        assert(decimal(n as nat).reverse().reverse() =~= decimal(n as nat));
        assert(digits@.reverse() =~= Seq::new(zeros as nat, |i: int| '0') + decimal(n as nat));
        assert(zeros == pad);
        assert(zero_padded(n as nat, width as nat) =~= Seq::new(zeros as nat, |i: int| '0') + decimal(
            n as nat,
        ));
    }
    let ghost start = s@;
    let mut i = digits.len();
    while i > 0
        invariant
            i <= digits@.len(),
            s@ == start + digits@.subrange(i as int, digits@.len() as int).reverse(),
        decreases i,
    {
        i = i - 1;
        push_char(s, digits[i]);
        proof {
            assert(digits@.subrange(i as int, digits@.len() as int).reverse() =~= digits@.subrange(
                i + 1,
                digits@.len() as int,
            ).reverse().push(digits@[i as int]));
        }
    }
    proof {
        assert(digits@.subrange(0, digits@.len() as int) =~= digits@);
    }
}

/// The film's cuts in order. A cut that is split becomes a sequence of its
/// parts, so the order is layered; every cut has a path into the layers,
/// and the paths are kept in step with the layers.
pub struct CutSequence {
    pool: SlotPool<Cut>,
    sequence: LayeredVec<CutKey>,
    paths: Vec<CutPath>,
}

impl CutSequence {
    /// The cuts, by key number; removed cuts stay until `normalize`.
    pub closed spec fn cuts(self) -> Map<u64, Cut> {
        cut_slots(self.pool)
    }

    /// The keys of the cuts in film order.
    pub closed spec fn order(self) -> Seq<CutKey> {
        self.sequence.flatten()
    }

    /// The path of every cut, in film order.
    pub closed spec fn cut_paths(self) -> Seq<Seq<usize>> {
        self.sequence.paths()
    }

    /// The layers that hold the keys.
    pub closed spec fn layers(self) -> LayeredVec<CutKey> {
        self.sequence
    }

    /// What `normalize` leaves: the cuts that exist, in the same order, each
    /// on a level of its own at the top.
    pub open spec fn normalized(self, after: Self) -> bool {
        &&& after.order() == self.order().filter(|k: CutKey| self.cuts()[k.id()] is Exists)
        &&& forall|k: u64| #[trigger]
            after.cuts().contains_key(k) == (self.cuts().contains_key(k) && self.cuts()[k] is Exists)
        &&& forall|k: u64| #[trigger] after.cuts().contains_key(k) ==> after.cuts()[k] == self.cuts()[k]
        &&& after.cut_paths().len() == after.order().len()
        &&& forall|i: int| #![trigger after.cut_paths()[i]]
            0 <= i < after.cut_paths().len() ==> after.cut_paths()[i] == seq![i as usize]
    }

    /// The sequence's invariant: the order names each cut exactly once, and
    /// the stored paths are those of the layers.
    pub closed spec fn wf(self) -> bool {
        &&& self.sequence is Sequence
        &&& self.cuts().dom().finite()
        &&& self.cuts().len() <= slot_capacity()
        &&& self.order().no_duplicates()
        &&& self.order().len() == self.cuts().len()
        &&& forall|i: int|
            0 <= i < self.order().len() ==> self.cuts().contains_key(#[trigger] self.order()[i].id())
        &&& forall|k: u64|
            #![trigger self.cuts().contains_key(k)]
            self.cuts().contains_key(k) ==> valid_key(k) && exists|i: int|
                0 <= i < self.order().len() && #[trigger] self.order()[i].id() == k
        &&& self.paths@.len() == self.cut_paths().len()
        &&& forall|i: int| 0 <= i < self.paths@.len() ==> #[trigger] self.paths@[i]@ == self.cut_paths()[i]
    }

    /// An empty sequence.
    pub fn new() -> (r: Self)
        ensures
            r.wf(),
            r.cuts().len() == 0,
            r.order().len() == 0,
    {
        let r = CutSequence { pool: cut_pool_new(), sequence: LayeredVec::new(), paths: Vec::new() };
        proof {
            assert(r.cuts() =~= Map::<u64, Cut>::empty());
            assert(r.cut_paths() =~= Seq::<Seq<usize>>::empty());
        }
        r
    }

    /// Whether a cut put at `index` would overfill its level: a new last cut
    /// joins the outermost level, any other the level of the cut now at
    /// `index`, and a level holds at most its cap plus one cuts.
    pub open spec fn level_full(self, index: int) -> bool {
        if index == self.order().len() {
            child_count(self.layers()) > level_cap(1)
        } else {
            let p = self.cut_paths()[index];
            child_count(self.layers().at(p.drop_last()).unwrap()) > level_cap(p.len())
        }
    }

    /// The number of cuts beside the one at `index` in its level, that one
    /// included; the outermost level's for `index == len`.
    fn level_len(&self, index: usize) -> (r: (usize, usize))
        requires
            self.wf(),
            index <= self.order().len(),
        ensures
            index == self.order().len() ==> r.0 == child_count(self.sequence) && r.1 == 1,
            index < self.order().len() ==> {
                let p = self.cut_paths()[index as int];
                &&& r.0 == child_count(self.sequence.at(p.drop_last()).unwrap())
                &&& r.1 == p.len()
            },
    {
        proof {
            lemma_paths_len(self.sequence);
        }
        if index == self.paths.len() {
            return match &self.sequence {
                LayeredVec::Sequence(v) => (v.len(), 1),
                LayeredVec::Element(_) => (0, 1),
            };
        }
        let path = &self.paths[index];
        let ghost full = path@;
        proof {
            lemma_path_leads_to_element(self.sequence, index as int);
            lemma_paths_nonempty(self.sequence, index as int);
            lemma_at_parent(self.sequence, full);
            assert(full.drop_last().skip(0) =~= full.drop_last());
        }
        let depth = path.depth();
        let ghost up = full.drop_last();
        let mut node: &LayeredVec<CutKey> = &self.sequence;
        let mut i: usize = 0;
        while i + 1 < depth
            invariant
                full == path@,
                depth == full.len(),
                depth >= 1,
                up == full.drop_last(),
                i <= up.len(),
                self.sequence.at(up) == node.at(up.skip(i as int)),
                self.sequence.at(up) is Some,
            decreases depth - i,
        {
            let step = path.path()[i];
            let ghost rest = up.skip(i as int);
            proof {
                assert(rest[0] == step);
                assert(rest.drop_first() =~= up.skip(i + 1));
            }
            match node {
                LayeredVec::Sequence(inner) => {
                    if step < inner.len() {
                        node = &inner[step];
                    } else {
                        proof {
                            assert(node.at(rest) is None);
                        }
                        return (0, depth);
                    }
                },
                LayeredVec::Element(_) => {
                    proof {
                        assert(node.at(rest) is None);
                    }
                    return (0, depth);
                },
            }
            i = i + 1;
        }
        proof {
            assert(up.skip(i as int) =~= Seq::<usize>::empty());
        }
        match node {
            LayeredVec::Sequence(v) => (v.len(), depth),
            LayeredVec::Element(_) => (0, depth),
        }
    }

    /// Puts a new, existing cut without assets at `index` in film order:
    /// before the cut now at `index`, beside it in its level, or last in the
    /// outermost level when `index` is the number of cuts.
    pub fn insert_cut(&mut self, index: usize) -> (r: CutResult<()>)
        requires
            old(self).wf(),
            old(self).cuts().len() < slot_capacity(),
        ensures
            final(self).wf(),
            index > old(self).order().len() ==> r == Err::<(), CutError>(CutError::NotFound),
            index <= old(self).order().len() && old(self).level_full(index as int) ==> r == Err::<
                (),
                CutError,
            >(CutError::LimitExceeded),
            index <= old(self).order().len() && !old(self).level_full(index as int) ==> r is Ok,
            r is Err ==> final(self).cuts() == old(self).cuts() && final(self).order() == old(
                self,
            ).order() && final(self).cut_paths() == old(self).cut_paths(),
            r is Ok ==> ({
                let k = final(self).order()[index as int];
                &&& !old(self).cuts().contains_key(k.id())
                &&& final(self).order() == old(self).order().insert(index as int, k)
                &&& final(self).cuts() == old(self).cuts().insert(k.id(), final(self).cuts()[k.id()])
                &&& final(self).cuts()[k.id()] matches Cut::Exists { asset_keys } && asset_keys@.is_empty()
                &&& index < old(self).order().len() ==> final(self).cut_paths() == old(self).cut_paths().take(
                    index as int,
                ) + seq![old(self).cut_paths()[index as int]] + old(self).cut_paths().skip(
                    index as int,
                ).map_values(
                    |p: Seq<usize>| shifted(p, old(self).cut_paths()[index as int].drop_last()),
                )
                &&& index == old(self).order().len() ==> final(self).cut_paths() == old(
                    self,
                ).cut_paths().push(seq![child_count(old(self).layers()) as usize])
            }),
    {
        proof {
            lemma_paths_len(self.sequence);
        }
        let len = self.paths.len();
        if index > len {
            return Err(CutError::NotFound);
        }
        let (count, depth) = self.level_len(index);
        if count > level_cap_of(depth) {
            return Err(CutError::LimitExceeded);
        }
        let fresh = Cut::new();
        let ghost fresh_cut = fresh;
        let k = cut_pool_insert(&mut self.pool, fresh);
        let key = CutKey(k);
        let ghost old_order = self.order();
        proof {
            assert forall|i: int| 0 <= i < old_order.len() implies old_order[i] != key by {
                assert(old(self).cuts().contains_key(old_order[i].id()));
            }
        }
        if index == len {
            match &mut self.sequence {
                LayeredVec::Sequence(v) => {
                    let ghost s = v@;
                    v.push(LayeredVec::Element(key));
                    proof {
                        lemma_flatten_push(s, 0, LayeredVec::Element(key));
                        assert(LayeredVec::Element(key).flatten() == seq![key]);
                        assert(old_order + seq![key] =~= old_order.insert(index as int, key));
                        lemma_paths_insert(s, 0, s.len() as int, LayeredVec::Element(key));
                        assert(s.insert(s.len() as int, LayeredVec::Element(key)) =~= v@);
                        let ps = paths_from(s, 0);
                        assert(paths_from(s, s.len() as int) =~= Seq::<Seq<usize>>::empty());
                        assert(ps.take(ps.len() as int) =~= ps);
                        assert(prefixed(seq![s.len() as usize], LayeredVec::Element(key).paths()) =~= seq![
                            seq![s.len() as usize],
                        ]) by {
                            assert(seq![s.len() as usize] + Seq::<usize>::empty() =~= seq![s.len() as usize]);
                        }
                        assert(paths_from(v@, 0) =~= ps.push(seq![s.len() as usize]));
                    }
                },
                LayeredVec::Element(_) => {},
            }
        } else {
            proof {
                lemma_path_leads_to_element(self.sequence, index as int);
                assert(self.paths@[index as int]@.skip(0) =~= self.paths@[index as int]@);
                lemma_paths_nonempty(self.sequence, index as int);
            }
            insert_before_path(
                &mut self.sequence,
                self.paths[index].path(),
                0,
                LayeredVec::Element(key),
                Ghost(index as int),
            );
            proof {
                assert(LayeredVec::Element(key).flatten() == seq![key]);
                assert(old_order.take(index as int) + seq![key] + old_order.skip(index as int)
                    =~= old_order.insert(index as int, key));
                let p = old(self).cut_paths()[index as int];
                assert(prefixed(p, LayeredVec::Element(key).paths()) =~= seq![p]) by {
                    assert(p + Seq::<usize>::empty() =~= p);
                }
            }
        }
        proof {
            let new_order = self.order();
            assert(new_order == old_order.insert(index as int, key));
            assert(new_order[index as int] == key);
            assert forall|a: int, b: int| 0 <= a < b < new_order.len() implies new_order[a] != new_order[b] by {
                if a == index {
                    assert(new_order[b] == old_order[b - 1]);
                } else if b == index {
                    assert(new_order[a] == old_order[a]);
                } else {
                    let a2 = if a < index { a } else { a - 1 };
                    let b2 = if b < index { b } else { b - 1 };
                    assert(new_order[a] == old_order[a2]);
                    assert(new_order[b] == old_order[b2]);
                }
            }
            assert forall|i: int| 0 <= i < new_order.len() implies self.cuts().contains_key(#[trigger] new_order[i].id()) by {
                if i != index {
                    let i2 = if i < index { i } else { i - 1 };
                    assert(new_order[i] == old_order[i2]);
                    assert(old(self).cuts().contains_key(old_order[i2].id()));
                }
            }
            assert forall|x: u64| #![trigger self.cuts().contains_key(x)] self.cuts().contains_key(x) implies valid_key(x) && exists|i: int|
                0 <= i < new_order.len() && #[trigger] new_order[i].id() == x by {
                if x == k {
                    assert(new_order[index as int].id() == x);
                } else {
                    assert(old(self).cuts().contains_key(x));
                    let i = choose|i: int| 0 <= i < old_order.len() && #[trigger] old_order[i].id() == x;
                    let i2 = if i < index { i } else { i + 1 };
                    assert(new_order[i2] == old_order[i]);
                }
            }
        }
        self.update_paths();
        Ok(())
    }

    /// Splits the cut at `index` in two, in place of it: a new level holds a
    /// new cut and, after it, the cut itself. The new cut takes `index`.
    pub fn split_cut_keep_after(&mut self, index: usize) -> (r: CutResult<()>)
        requires
            old(self).wf(),
            old(self).cuts().len() < slot_capacity(),
        ensures
            final(self).wf(),
            index >= old(self).order().len() ==> r == Err::<(), CutError>(CutError::NotFound)
                && final(self).cuts() == old(self).cuts() && final(self).order() == old(self).order()
                && final(self).cut_paths() == old(self).cut_paths(),
            index < old(self).order().len() ==> r == Ok::<(), CutError>(()) && ({
                let k = final(self).order()[index as int];
                &&& !old(self).cuts().contains_key(k.id())
                &&& final(self).order()[index + 1] == old(self).order()[index as int]
                &&& final(self).order() == old(self).order().insert(index as int, k)
                &&& final(self).cuts() == old(self).cuts().insert(k.id(), final(self).cuts()[k.id()])
                &&& final(self).cuts()[k.id()] matches Cut::Exists { asset_keys } && asset_keys@.is_empty()
                &&& final(self).cut_paths() == old(self).cut_paths().take(index as int) + seq![
                    old(self).cut_paths()[index as int].push(0),
                    old(self).cut_paths()[index as int].push(1),
                ] + old(self).cut_paths().skip(index + 1)
            }),
    {
        self.split_cut(index, true)
    }

    /// Splits the cut at `index` in two, in place of it: a new level holds
    /// the cut itself and, after it, a new cut. The new cut takes `index + 1`.
    pub fn split_cut_keep_before(&mut self, index: usize) -> (r: CutResult<()>)
        requires
            old(self).wf(),
            old(self).cuts().len() < slot_capacity(),
        ensures
            final(self).wf(),
            index >= old(self).order().len() ==> r == Err::<(), CutError>(CutError::NotFound)
                && final(self).cuts() == old(self).cuts() && final(self).order() == old(self).order()
                && final(self).cut_paths() == old(self).cut_paths(),
            index < old(self).order().len() ==> r == Ok::<(), CutError>(()) && ({
                let k = final(self).order()[index + 1];
                &&& !old(self).cuts().contains_key(k.id())
                &&& final(self).order()[index as int] == old(self).order()[index as int]
                &&& final(self).order() == old(self).order().insert(index + 1, k)
                &&& final(self).cuts() == old(self).cuts().insert(k.id(), final(self).cuts()[k.id()])
                &&& final(self).cuts()[k.id()] matches Cut::Exists { asset_keys } && asset_keys@.is_empty()
                &&& final(self).cut_paths() == old(self).cut_paths().take(index as int) + seq![
                    old(self).cut_paths()[index as int].push(0),
                    old(self).cut_paths()[index as int].push(1),
                ] + old(self).cut_paths().skip(index + 1)
            }),
    {
        self.split_cut(index, false)
    }

    fn split_cut(&mut self, index: usize, new_first: bool) -> (r: CutResult<()>)
        requires
            old(self).wf(),
            old(self).cuts().len() < slot_capacity(),
        ensures
            final(self).wf(),
            index >= old(self).order().len() ==> r == Err::<(), CutError>(CutError::NotFound)
                && final(self).cuts() == old(self).cuts() && final(self).order() == old(self).order()
                && final(self).cut_paths() == old(self).cut_paths(),
            index < old(self).order().len() ==> r == Ok::<(), CutError>(()) && ({
                let at = if new_first { index as int } else { index + 1 };
                let k = final(self).order()[at];
                &&& !old(self).cuts().contains_key(k.id())
                &&& final(self).order() == old(self).order().insert(at, k)
                &&& final(self).cuts() == old(self).cuts().insert(k.id(), final(self).cuts()[k.id()])
                &&& final(self).cuts()[k.id()] matches Cut::Exists { asset_keys } && asset_keys@.is_empty()
                &&& final(self).cut_paths() == old(self).cut_paths().take(index as int) + seq![
                    old(self).cut_paths()[index as int].push(0),
                    old(self).cut_paths()[index as int].push(1),
                ] + old(self).cut_paths().skip(index + 1)
            }),
    {
        proof {
            lemma_paths_len(self.sequence);
        }
        if index >= self.paths.len() {
            return Err(CutError::NotFound);
        }
        let k = cut_pool_insert(&mut self.pool, Cut::new());
        let key = CutKey(k);
        let ghost old_order = self.order();
        let ghost at = if new_first { index as int } else { index + 1 };
        proof {
            assert forall|i: int| 0 <= i < old_order.len() implies old_order[i] != key by {
                assert(old(self).cuts().contains_key(old_order[i].id()));
            }
            lemma_path_leads_to_element(self.sequence, index as int);
            assert(self.paths@[index as int]@.skip(0) =~= self.paths@[index as int]@);
        }
        split_element_at_path(
            &mut self.sequence,
            self.paths[index].path(),
            0,
            key,
            new_first,
            Ghost(index as int),
        );
        proof {
            let j = index as int;
            let pair = if new_first { seq![key, old_order[j]] } else { seq![old_order[j], key] };
            assert(old_order.take(j) + pair + old_order.skip(j + 1) =~= old_order.insert(at, key));
            let new_order = self.order();
            assert(new_order == old_order.insert(at, key));
            assert(new_order[at] == key);
            assert forall|a: int, b: int| 0 <= a < b < new_order.len() implies new_order[a] != new_order[b] by {
                if a == at {
                    assert(new_order[b] == old_order[b - 1]);
                } else if b == at {
                    assert(new_order[a] == old_order[a]);
                } else {
                    let a2 = if a < at { a } else { a - 1 };
                    let b2 = if b < at { b } else { b - 1 };
                    assert(new_order[a] == old_order[a2]);
                    assert(new_order[b] == old_order[b2]);
                }
            }
            assert forall|i: int| 0 <= i < new_order.len() implies self.cuts().contains_key(#[trigger] new_order[i].id()) by {
                if i != at {
                    let i2 = if i < at { i } else { i - 1 };
                    assert(new_order[i] == old_order[i2]);
                    assert(old(self).cuts().contains_key(old_order[i2].id()));
                }
            }
            assert forall|x: u64| #![trigger self.cuts().contains_key(x)] self.cuts().contains_key(x) implies valid_key(x) && exists|i: int|
                0 <= i < new_order.len() && #[trigger] new_order[i].id() == x by {
                if x == k {
                    assert(new_order[at].id() == x);
                } else {
                    assert(old(self).cuts().contains_key(x));
                    let i = choose|i: int| 0 <= i < old_order.len() && #[trigger] old_order[i].id() == x;
                    let i2 = if i < at { i } else { i + 1 };
                    assert(new_order[i2] == old_order[i]);
                }
            }
        }
        self.update_paths();
        Ok(())
    }

    /// Drops the removed cuts and flattens the layers: afterwards the
    /// sequence is one level deep and holds the cuts that exist, in order.
    #[verifier::spinoff_prover]
    #[verifier::rlimit(40)]
    pub fn normalize(&mut self)
        requires
            old(self).wf(),
        ensures
            final(self).wf(),
            old(self).normalized(*final(self)),
    {
        let ghost old_order = self.order();
        let ghost old_cuts = self.cuts();
        let ghost pred = |k: CutKey| old_cuts[k.id()] is Exists;
        let mut new_sequence: Vec<LayeredVec<CutKey>> = Vec::new();
        let ghost mut kept: Seq<CutKey> = Seq::empty();
        let ghost mut n: int = 0;
        proof {
            assert(old_order.take(0) =~= Seq::<CutKey>::empty());
            reveal_with_fuel(Seq::filter, 1);
            assert(old_order.skip(0) =~= old_order);
        }
        let mut it: LayeredVecIter<'_, CutKey> = self.sequence.iter();
        loop
            invariant
                0 <= n <= old_order.len(),
                it.remaining() == old_order.skip(n),
                pred == (|k: CutKey| old_cuts[k.id()] is Exists),
                kept == old_order.take(n).filter(pred),
                kept.no_duplicates(),
                forall|j: int| 0 <= j < kept.len() ==> old_order.take(n).contains(#[trigger] kept[j]),
                new_sequence@.len() == kept.len(),
                forall|j: int| 0 <= j < kept.len() ==> #[trigger] new_sequence@[j] == LayeredVec::<
                    CutKey,
                >::Element(kept[j]),
                forall|j: int|
                    0 <= j < kept.len() ==> cut_slots(self.pool).contains_key(#[trigger] kept[j].id()),
                old_order.no_duplicates(),
                old_order.len() == old_cuts.len(),
                old_cuts.dom().finite(),
                cut_slots(self.pool).dom().finite(),
                cut_slots(self.pool).len() + n == old_cuts.len() + kept.len(),
                forall|i: int|
                    0 <= i < old_order.len() ==> old_cuts.contains_key(#[trigger] old_order[i].id()),
                forall|k: u64| #[trigger]
                    cut_slots(self.pool).contains_key(k) == (old_cuts.contains_key(k) && !exists|
                        j: int,
                    | 0 <= j < n && #[trigger] old_order[j].id() == k && old_cuts[k] is Removed),
                forall|k: u64| #[trigger]
                    cut_slots(self.pool).contains_key(k) ==> cut_slots(self.pool)[k] == old_cuts[k],
            ensures
                n == old_order.len(),
            decreases it.remaining().len(),
        {
            match it.next() {
                None => {
                    break;
                },
                Some(key) => {
                    let key: CutKey = *key;
                    proof {
                        assert(key == old_order[n]);
                        assert(old_order.skip(n).drop_first() =~= old_order.skip(n + 1));
                        assert(old_order.take(n + 1) =~= old_order.take(n).push(key));
                        old_order.take(n).lemma_filter_push(key, pred);
                        assert forall|j: int| 0 <= j < n implies old_order[j].id() != key.id() by {
                            assert(old_order[j] != old_order[n]);
                        }
                        assert(old_cuts.contains_key(key.id()));
                        assert(cut_slots(self.pool).contains_key(key.id()));
                        assert forall|j: int| 0 <= j < kept.len() implies kept[j] != key by {
                            assert(old_order.take(n).contains(kept[j]));
                        }
                    }
                    let k = key.raw();
                    let keep = match cut_pool_get(&self.pool, k) {
                        Some(cut) => {
                            let e = cut.is_existing();
                            proof {
                                assert(*cut == old_cuts[k]);
                            }
                            e
                        },
                        None => false,
                    };
                    proof {
                        assert(keep == pred(key));
                    }
                    if keep {
                        new_sequence.push(LayeredVec::Element(key));
                        proof {
                            kept = kept.push(key);
                        }
                    } else {
                        let _ = cut_pool_remove(&mut self.pool, k);
                    }
                    proof {
                        n = n + 1;
                        assert forall|j: int| 0 <= j < kept.len() implies old_order.take(n).contains(#[trigger] kept[j]) by {
                            if j < kept.len() - 1 || !keep {
                                assert(old_order.take(n - 1).contains(kept[j]));
                                let w = choose|w: int| 0 <= w < n - 1 && #[trigger] old_order.take(n - 1)[w] == kept[j];
                                assert(old_order.take(n)[w] == kept[j]);
                            } else {
                                assert(old_order.take(n)[n - 1] == kept[j]);
                            }
                        }
                    }
                },
            }
        }
        proof {
            assert(n == old_order.len());
            assert(old_order.take(n) =~= old_order);
        }
        self.sequence = LayeredVec::Sequence(new_sequence);
        proof {
            lemma_flat_elements(new_sequence, kept, 0);
            assert(kept.skip(0) =~= kept);
            assert(self.order() =~= kept);
            assert forall|k: u64| #![trigger self.cuts().contains_key(k)] self.cuts().contains_key(k) implies valid_key(k) && exists|i: int|
                0 <= i < self.order().len() && #[trigger] self.order()[i].id() == k by {
                let j = choose|j: int| 0 <= j < old_order.len() && #[trigger] old_order[j].id() == k;
                assert(pred(old_order[j]));
                old_order.lemma_filter_contains(pred, j);
                let i = choose|i: int| 0 <= i < kept.len() && kept[i] == old_order[j];
                assert(self.order()[i].id() == k);
            }
            assert(self.cuts().dom().finite());
            assert(self.cuts().len() <= slot_capacity());
            assert(self.order().no_duplicates());
            assert(self.order().len() == self.cuts().len());
            assert(forall|i: int|
            0 <= i < self.order().len() ==> self.cuts().contains_key(#[trigger] self.order()[i].id()));
        }
        self.update_paths();
        proof {
            lemma_paths_len(self.sequence);
        }
    }

    fn update_paths(&mut self)
        ensures
            final(self).pool == old(self).pool,
            final(self).sequence == old(self).sequence,
            final(self).paths@.len() == old(self).cut_paths().len(),
            forall|i: int| 0 <= i < final(self).paths@.len() ==> #[trigger] final(self).paths@[i]@
                == old(self).cut_paths()[i],
    {
        self.paths.clear();
        let mut it: PathIter<'_, CutKey> = self.sequence.path_iter();
        let ghost all = self.sequence.paths();
        loop
            invariant
                self.paths@.len() + it.remaining().len() == all.len(),
                it.remaining() == all.skip(self.paths@.len() as int),
                forall|i: int| 0 <= i < self.paths@.len() ==> #[trigger] self.paths@[i]@ == all[i],
                self.pool == old(self).pool,
                self.sequence == old(self).sequence,
                all == old(self).sequence.paths(),
            ensures
                self.paths@.len() == all.len(),
                forall|i: int| 0 <= i < self.paths@.len() ==> #[trigger] self.paths@[i]@ == all[i],
                self.pool == old(self).pool,
                self.sequence == old(self).sequence,
            decreases it.remaining().len(),
        {
            match it.next() {
                None => {
                    break;
                },
                Some(p) => {
                    let ghost m = self.paths@.len();
                    proof {
                        assert(all.skip(m as int).drop_first() =~= all.skip(m as int + 1));
                    }
                    self.paths.push(CutPath::new_unchecked(p.as_slice()));
                },
            }
        }
    }

    /// Marks the cut under `key` as removed; `normalize` drops it later.
    pub fn remove(&mut self, key: CutKey) -> (r: CutResult<()>)
        requires
            old(self).wf(),
        ensures
            final(self).wf(),
            final(self).order() == old(self).order(),
            final(self).cut_paths() == old(self).cut_paths(),
            old(self).cuts().contains_key(key.id()) && old(self).cuts()[key.id()] is Exists ==> r
                == Ok::<(), CutError>(()) && final(self).cuts() == old(self).cuts().insert(
                key.id(),
                Cut::Removed,
            ),
            !(old(self).cuts().contains_key(key.id()) && old(self).cuts()[key.id()] is Exists) ==> r
                == Err::<(), CutError>(CutError::NotFound) && final(self).cuts() == old(self).cuts(),
    {
        let k = key.raw();
        match cut_pool_get_mut(&mut self.pool, k) {
            None => Err(CutError::NotFound),
            Some(cut) => {
                if cut.is_existing() {
                    *cut = Cut::Removed;
                    proof {
                        assert(self.cuts().dom() =~= old(self).cuts().dom());
                    }
                    Ok(())
                } else {
                    Err(CutError::NotFound)
                }
            },
        }
    }

    /// The cut under `key`, removed or not.
    pub fn cut(&self, key: CutKey) -> (r: CutResult<&Cut>)
        ensures
            self.cuts().contains_key(key.id()) ==> (r matches Ok(c) && *c == self.cuts()[key.id()]),
            !self.cuts().contains_key(key.id()) ==> r == Err::<&Cut, CutError>(CutError::NotFound),
    {
        match cut_pool_get(&self.pool, key.raw()) {
            Some(c) => Ok(c),
            None => Err(CutError::NotFound),
        }
    }

    /// The key of the `index`-th cut in film order, found by following its
    /// path through the layers.
    pub fn key(&self, index: usize) -> (r: CutResult<CutKey>)
        requires
            self.wf(),
        ensures
            index < self.order().len() ==> r == Ok::<CutKey, CutError>(self.order()[index as int]),
            index >= self.order().len() ==> r == Err::<CutKey, CutError>(CutError::NotFound),
    {
        proof {
            lemma_paths_len(self.sequence);
        }
        let path = match self.path(index) {
            Ok(p) => p,
            Err(e) => {
                return Err(e);
            },
        };
        proof {
            lemma_path_leads_to_element(self.sequence, index as int);
        }
        let ghost full = path@;
        proof {
            assert(full.skip(0) =~= full);
        }
        let mut node: &LayeredVec<CutKey> = &self.sequence;
        let mut i: usize = 0;
        while i < path.depth()
            invariant
                full == path@,
                i <= full.len(),
                self.sequence.at(full) == node.at(full.skip(i as int)),
                self.sequence.at(full) == Some(LayeredVec::<CutKey>::Element(self.order()[index as int])),
            decreases full.len() - i,
        {
            let step = path.path()[i];
            let ghost rest = full.skip(i as int);
            proof {
                assert(rest[0] == step);
                assert(rest.drop_first() =~= full.skip(i + 1));
            }
            match node {
                LayeredVec::Sequence(inner) => {
                    if step < inner.len() {
                        node = &inner[step];
                    } else {
                        proof {
                            assert(node.at(rest) is None);
                        }
                        return Err(CutError::NotFound);
                    }
                },
                LayeredVec::Element(_) => {
                    proof {
                        assert(node.at(rest) is None);
                    }
                    return Err(CutError::NotFound);
                },
            }
            i = i + 1;
        }
        proof {
            assert(full.skip(i as int) =~= Seq::<usize>::empty());
        }
        match node {
            LayeredVec::Element(inner) => Ok(*inner),
            LayeredVec::Sequence(_) => Err(CutError::NotFound),
        }
    }

    /// The position of the cut under `key` in film order.
    pub fn index(&self, key: CutKey) -> (r: CutResult<usize>)
        requires
            self.wf(),
        ensures
            self.order().contains(key) ==> (r matches Ok(i) && i < self.order().len()
                && self.order()[i as int] == key),
            !self.order().contains(key) ==> r == Err::<usize, CutError>(CutError::NotFound),
    {
        let ghost order = self.order();
        proof {
            assert(order.skip(0) =~= order);
        }
        let mut it: LayeredVecIter<'_, CutKey> = self.sequence.iter();
        let mut i: usize = 0;
        loop
            invariant
                i <= order.len(),
                order.len() <= slot_capacity(),
                order == self.order(),
                it.remaining() == order.skip(i as int),
                forall|j: int| 0 <= j < i ==> order[j] != key,
            decreases it.remaining().len(),
        {
            match it.next() {
                None => {
                    proof {
                        assert(i == order.len());
                        assert(!order.contains(key));
                    }
                    return Err(CutError::NotFound);
                },
                Some(k) => {
                    proof {
                        assert(*k == order[i as int]);
                        assert(order.skip(i as int).drop_first() =~= order.skip(i + 1));
                    }
                    if *k == key {
                        proof {
                            assert(order[i as int] == key);
                            assert(order.contains(key));
                        }
                        return Ok(i);
                    }
                    i = i + 1;
                },
            }
        }
    }

    /// The path of the `index`-th cut in film order.
    pub fn path(&self, index: usize) -> (r: CutResult<&CutPath>)
        requires
            self.wf(),
        ensures
            index < self.cut_paths().len() ==> (r matches Ok(p) && p@ == self.cut_paths()[index as int]),
            index >= self.cut_paths().len() ==> r == Err::<&CutPath, CutError>(CutError::NotFound),
    {
        if index < self.paths.len() {
            Ok(&self.paths[index])
        } else {
            Err(CutError::NotFound)
        }
    }
}

impl CutSequence {
    /// Each cut stands once in the order and has one path: the key that
    /// `key(i)` gives has the index `i`.
    pub proof fn lemma_order_distinct(self)
        requires
            self.wf(),
        ensures
            self.order().no_duplicates(),
            self.cut_paths().len() == self.order().len(),
    {
        lemma_paths_len(self.sequence);
    }

    /// The order and the cuts name the same keys: every key in the order
    /// is the key of a cut, removed or not, and every cut's key stands in
    /// the order. So `cut(key(i))` finds a cut for every `i` in range.
    pub proof fn lemma_order_names_cuts(self)
        requires
            self.wf(),
        ensures
            forall|i: int|
                0 <= i < self.order().len() ==> self.cuts().contains_key(#[trigger] self.order()[i].id()),
            forall|k: u64|
                #[trigger] self.cuts().contains_key(k) ==> exists|i: int|
                    0 <= i < self.order().len() && #[trigger] self.order()[i].id() == k,
    {
    }

    /// A level holds a thousand cuts at the top (numbers `c001` to `c1000`),
    /// twenty-seven in the second level (letters from `A`) and ten in each
    /// deeper one (`-1` to `-10`): `insert_cut` at `index` is refused for
    /// the limit exactly when the level it joins already holds that many.
    /// These are the caps of `CutPath::increment`: a level is full exactly
    /// when the index of its last cut is one that `increment` refuses to
    /// raise.
    pub proof fn lemma_level_capacity(self, index: int)
        requires
            self.wf(),
            0 <= index <= self.order().len(),
        ensures
            index == self.order().len() ==> (self.level_full(index) <==> child_count(self.layers())
                >= 1000),
            index < self.order().len() ==> ({
                let p = self.cut_paths()[index];
                let n = child_count(self.layers().at(p.drop_last()).unwrap());
                &&& p.len() >= 1
                &&& p.len() == 1 ==> (self.level_full(index) <==> n >= 1000)
                &&& p.len() == 2 ==> (self.level_full(index) <==> n >= 27)
                &&& p.len() >= 3 ==> (self.level_full(index) <==> n >= 10)
                &&& self.level_full(index) <==> n - 1 >= level_cap(p.len())
            }),
    {
        lemma_paths_len(self.sequence);
        if index < self.order().len() {
            lemma_paths_nonempty(self.sequence, index);
        }
    }

    /// The path of the `i`-th cut leads through the layers to its key.
    pub proof fn lemma_path_leads_to_cut(self, i: int)
        requires
            self.wf(),
            0 <= i < self.order().len(),
        ensures
            self.layers().flatten() == self.order(),
            self.layers().paths() == self.cut_paths(),
            self.layers().element_at(self.cut_paths()[i]) == Some(self.order()[i]),
    {
        lemma_path_leads_to_element(self.sequence, i);
    }

    /// Normalizing twice is normalizing once: a normalized sequence is left
    /// as it is.
    pub proof fn lemma_normalize_idempotent(a: Self, b: Self, c: Self)
        requires
            a.wf(),
            a.normalized(b),
            b.normalized(c),
        ensures
            c.cuts() == b.cuts(),
            c.order() == b.order(),
            c.cut_paths() == b.cut_paths(),
    {
        broadcast use vstd::seq_lib::group_filter_ensures;

        let pb = |k: CutKey| b.cuts()[k.id()] is Exists;
        assert forall|i: int| 0 <= i < b.order().len() implies #[trigger] pb(b.order()[i]) by {
            let k = b.order()[i];
            let pa = |k: CutKey| a.cuts()[k.id()] is Exists;
            assert(pa(a.order().filter(pa)[i]));
            assert(a.order().filter(pa).contains(k));
            a.order().lemma_filter_contains_rev(pa, k);
            let j = choose|j: int| 0 <= j < a.order().len() && a.order()[j] == k;
            assert(a.cuts().contains_key(a.order()[j].id()));
            assert(b.cuts().contains_key(k.id()));
        }
        lemma_filter_keeps_all(b.order(), pb);
        assert(c.cuts() =~= b.cuts());
        assert(c.cut_paths() =~= b.cut_paths());
    }

    /// A cut that is removed is gone once the sequence is normalized: its
    /// key is neither among the cuts nor in the order.
    pub proof fn lemma_removed_cut_is_dropped(a: Self, b: Self, c: Self, key: CutKey)
        requires
            b.cuts() == a.cuts().insert(key.id(), Cut::Removed),
            b.order() == a.order(),
            b.normalized(c),
        ensures
            !c.cuts().contains_key(key.id()),
            !c.order().contains(key),
    {
        broadcast use vstd::seq_lib::group_filter_ensures;

        let pb = |k: CutKey| b.cuts()[k.id()] is Exists;
        if c.order().contains(key) {
            let i = choose|i: int| 0 <= i < c.order().len() && c.order()[i] == key;
            assert(pb(b.order().filter(pb)[i]));
        }
    }
}

/// Filtering a sequence by a predicate that all its items meet leaves it
/// as it is.
proof fn lemma_filter_keeps_all<A>(s: Seq<A>, pred: spec_fn(A) -> bool)
    requires
        forall|i: int| 0 <= i < s.len() ==> #[trigger] pred(s[i]),
    ensures
        s.filter(pred) == s,
    decreases s.len(),
{
    if s.len() == 0 {
        reveal_with_fuel(Seq::filter, 1);
    } else {
        let init = s.drop_last();
        assert forall|i: int| 0 <= i < init.len() implies #[trigger] pred(init[i]) by {
            assert(pred(s[i]));
        }
        lemma_filter_keeps_all(init, pred);
        assert(init.push(s.last()) =~= s);
        init.lemma_filter_push(s.last(), pred);
        assert(pred(s[s.len() - 1]));
    }
}

impl Default for CutSequence {
    fn default() -> (r: Self)
        ensures
            r.wf(),
            r.cuts().len() == 0,
            r.order().len() == 0,
    {
        CutSequence::new()
    }
}

} // verus!
