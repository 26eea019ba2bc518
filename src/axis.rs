//! Axes: identity-bearing half-open index intervals.
//!
//! Two axes are the same axis exactly when they carry the same identity.
//! Identities come from an [`AxisIds`] source, which never hands out the
//! same value twice.
use vstd::prelude::*;
use vstd::string::StringExecFns;

verus! {

/// A source of axis identities.
pub struct AxisIds {
    pub next: u64,
}

impl AxisIds {
    /// A fresh source, whose first identity is zero.
    pub fn new() -> (r: AxisIds)
        ensures
            r.next == 0,
    {
        AxisIds { next: 0 }
    }

    /// Whether `n` more identities can still be handed out.
    pub open spec fn has_room(&self, n: nat) -> bool {
        self.next + n <= u64::MAX
    }

    /// Hands out the next identity; every identity handed out before is smaller.
    pub fn mint(&mut self) -> (id: u64)
        requires
            old(self).has_room(1),
        ensures
            id == old(self).next,
            final(self).next == old(self).next + 1,
    {
        let id = self.next;
        self.next = self.next + 1;
        id
    }
}

/// What an axis is: its identity, its label and its range `[lower, upper)`.
pub struct AxisModel {
    pub id: u64,
    pub label: Option<Seq<char>>,
    pub lower: usize,
    pub upper: usize,
}

/// Number of indices in `[lower, upper)`, zero when the range is empty.
pub open spec fn range_size(lower: usize, upper: usize) -> nat {
    if lower < upper {
        (upper - lower) as nat
    } else {
        0
    }
}

impl AxisModel {
    pub open spec fn size(self) -> nat {
        range_size(self.lower, self.upper)
    }

    pub open spec fn contains(self, i: usize) -> bool {
        self.lower <= i && i < self.upper
    }
}

/// Clone of an optional label, keeping its characters.
pub fn clone_label(label: &Option<String>) -> (r: Option<String>)
    ensures
        r.is_some() == label.is_some(),
        r.is_some() ==> r.unwrap()@ == label.unwrap()@,
{
    match label {
        Some(s) => Some(s.clone()),
        None => None,
    }
}

/// Label of a model, from an optional owned label.
pub open spec fn label_view(label: Option<String>) -> Option<Seq<char>> {
    match label {
        Some(s) => Some(s@),
        None => None,
    }
}

/// A named half-open interval `[lower, upper)` of indices with an identity.
#[derive(Clone, Debug)]
pub struct Axis {
    pub id: u64,
    pub label: Option<String>,
    pub lower: usize,
    pub upper: usize,
}

impl View for Axis {
    type V = AxisModel;

    open spec fn view(&self) -> AxisModel {
        AxisModel { id: self.id, label: label_view(self.label), lower: self.lower, upper: self.upper }
    }
}

impl PartialEq for Axis {
    /// Two axes are equal when they share their identity.
    fn eq(&self, other: &Axis) -> (r: bool) {
        self.id == other.id
    }
}

impl vstd::std_specs::cmp::PartialEqSpecImpl for Axis {
    open spec fn obeys_eq_spec() -> bool {
        true
    }

    open spec fn eq_spec(&self, other: &Axis) -> bool {
        self.id == other.id
    }
}

impl Axis {
    /// A copy with the same identity, label and range.
    pub fn duplicate(&self) -> (r: Axis)
        ensures
            r@ == self@,
    {
        Axis { id: self.id, label: clone_label(&self.label), lower: self.lower, upper: self.upper }
    }

    /// Whether `self` and `other` are the same axis.
    pub fn same_as(&self, other: &Axis) -> (r: bool)
        ensures
            r == (self.id == other.id),
    {
        self.id == other.id
    }

    /// The label of the axis, if it has one.
    pub fn label(&self) -> (r: Option<&str>)
        ensures
            r.is_some() == self.label.is_some(),
            r.is_some() ==> r.unwrap()@ == self.label.unwrap()@,
    {
        match &self.label {
            Some(s) => Some(s.as_str()),
            None => None,
        }
    }

    /// The range `lower..upper` of the axis.
    pub fn range(&self) -> (r: std::ops::Range<usize>)
        ensures
            r.start == self.lower,
            r.end == self.upper,
    {
        self.lower..self.upper
    }

    /// Whether the upper bound is not above the lower bound.
    pub fn is_empty(&self) -> (r: bool)
        ensures
            r == (self.upper <= self.lower),
    {
        self.upper <= self.lower
    }

    /// The lower bound (inclusive).
    pub fn lower(&self) -> (r: usize)
        ensures
            r == self.lower,
    {
        self.lower
    }

    /// The upper bound (exclusive).
    pub fn upper(&self) -> (r: usize)
        ensures
            r == self.upper,
    {
        self.upper
    }

    /// The number of indices in the axis, zero when it is empty.
    pub fn size(&self) -> (r: usize)
        ensures
            r == self@.size(),
    {
        if self.lower < self.upper {
            self.upper - self.lower
        } else {
            0
        }
    }

    /// Same as [`Axis::size`].
    pub fn len(&self) -> (r: usize)
        ensures
            r == self@.size(),
    {
        self.size()
    }

    /// A new axis with this range and the label `label`.
    pub fn clone_with_label(&self, label: &str, ids: &mut AxisIds) -> (r: Axis)
        requires
            old(ids).has_room(1),
        ensures
            r.id == old(ids).next,
            final(ids).next == old(ids).next + 1,
            label_view(r.label) == Some(label@),
            r.lower == self.lower,
            r.upper == self.upper,
    {
        AxisBuilder::new().label(label).range(self.range()).build(ids)
    }

    /// A new axis with this label and the range `range`.
    pub fn clone_with_range(&self, range: std::ops::Range<usize>, ids: &mut AxisIds) -> (r: Axis)
        requires
            old(ids).has_room(1),
        ensures
            r.id == old(ids).next,
            final(ids).next == old(ids).next + 1,
            label_view(r.label) == label_view(self.label),
            r.lower == range.start,
            r.upper == range.end,
    {
        AxisBuilder::from_axis(self).range(range).build(ids)
    }

    /// A new unlabelled axis covering both ranges.
    pub fn extend(&self, other: &Axis, ids: &mut AxisIds) -> (r: Axis)
        requires
            old(ids).has_room(1),
        ensures
            r.id == old(ids).next,
            final(ids).next == old(ids).next + 1,
            r.label.is_none(),
            r.lower == min_usize(self.lower, other.lower),
            r.upper == max_usize(self.upper, other.upper),
    {
        let lower = if self.lower <= other.lower { self.lower } else { other.lower };
        let upper = if self.upper >= other.upper { self.upper } else { other.upper };
        AxisBuilder::new().range(lower..upper).build(ids)
    }

    /// A new axis labelled `label` covering both ranges.
    pub fn extend_with_label(&self, other: &Axis, label: &str, ids: &mut AxisIds) -> (r: Axis)
        requires
            old(ids).has_room(1),
        ensures
            r.id == old(ids).next,
            final(ids).next == old(ids).next + 1,
            label_view(r.label) == Some(label@),
            r.lower == min_usize(self.lower, other.lower),
            r.upper == max_usize(self.upper, other.upper),
    {
        let lower = if self.lower <= other.lower { self.lower } else { other.lower };
        let upper = if self.upper >= other.upper { self.upper } else { other.upper };
        AxisBuilder::new().label(label).range(lower..upper).build(ids)
    }

    /// A new unlabelled axis holding the indices common to both ranges; it may be empty.
    pub fn intersect(&self, other: &Axis, ids: &mut AxisIds) -> (r: Axis)
        requires
            old(ids).has_room(1),
        ensures
            r.id == old(ids).next,
            final(ids).next == old(ids).next + 1,
            r.label.is_none(),
            r.lower == max_usize(self.lower, other.lower),
            r.upper == min_usize(self.upper, other.upper),
    {
        let lower = if self.lower >= other.lower { self.lower } else { other.lower };
        let upper = if self.upper <= other.upper { self.upper } else { other.upper };
        AxisBuilder::new().range(lower..upper).build(ids)
    }

    /// A new axis labelled `label` holding the indices common to both ranges.
    pub fn intersect_with_label(&self, other: &Axis, label: &str, ids: &mut AxisIds) -> (r: Axis)
        requires
            old(ids).has_room(1),
        ensures
            r.id == old(ids).next,
            final(ids).next == old(ids).next + 1,
            label_view(r.label) == Some(label@),
            r.lower == max_usize(self.lower, other.lower),
            r.upper == min_usize(self.upper, other.upper),
    {
        let lower = if self.lower >= other.lower { self.lower } else { other.lower };
        let upper = if self.upper <= other.upper { self.upper } else { other.upper };
        AxisBuilder::new().label(label).range(lower..upper).build(ids)
    }
}

pub open spec fn min_usize(a: usize, b: usize) -> usize {
    if a <= b {
        a
    } else {
        b
    }
}

pub open spec fn max_usize(a: usize, b: usize) -> usize {
    if a >= b {
        a
    } else {
        b
    }
}

/// Collects the label and the range of an axis before it is built.
#[derive(Clone, Debug)]
pub struct AxisBuilder {
    pub label: Option<String>,
    pub range: Option<std::ops::Range<usize>>,
}

impl AxisBuilder {
    /// A builder with neither label nor range.
    pub fn new() -> (r: AxisBuilder)
        ensures
            r.label.is_none(),
            r.range.is_none(),
    {
        AxisBuilder { label: None, range: None }
    }

    /// A builder holding the label and the range of `axis`.
    pub fn from_axis(axis: &Axis) -> (r: AxisBuilder)
        ensures
            label_view(r.label) == label_view(axis.label),
            r.range == Some(axis.lower..axis.upper),
    {
        AxisBuilder { label: clone_label(&axis.label), range: Some(axis.range()) }
    }

    /// Sets the label.
    pub fn label(self, label: &str) -> (r: AxisBuilder)
        ensures
            label_view(r.label) == Some(label@),
            r.range == self.range,
    {
        AxisBuilder { label: Some(label.to_string()), range: self.range }
    }

    /// Sets the range; `lower..upper` holds `lower` and not `upper`.
    pub fn range(self, range: std::ops::Range<usize>) -> (r: AxisBuilder)
        ensures
            label_view(r.label) == label_view(self.label),
            r.range == Some(range),
    {
        AxisBuilder { label: self.label, range: Some(range) }
    }

    /// Builds the axis under a fresh identity taken from `ids`.
    pub fn build(self, ids: &mut AxisIds) -> (r: Axis)
        requires
            self.range.is_some(),
            old(ids).has_room(1),
        ensures
            r.id == old(ids).next,
            final(ids).next == old(ids).next + 1,
            label_view(r.label) == label_view(self.label),
            r.lower == self.range.unwrap().start,
            r.upper == self.range.unwrap().end,
    {
        let range = self.range.unwrap();
        let id = ids.mint();
        Axis { id, label: self.label, lower: range.start, upper: range.end }
    }
}

/// The models of a sequence of axes.
pub open spec fn axes_view(axes: Seq<Axis>) -> Seq<AxisModel> {
    axes.map_values(|a: Axis| a@)
}

/// Whether some axis of `axes` has identity `id`.
pub open spec fn has_axis(axes: Seq<AxisModel>, id: u64) -> bool {
    exists|i: int| 0 <= i < axes.len() && #[trigger] axes[i].id == id
}

/// Whether `i` is the first position in `axes` of an axis with identity `id`.
pub open spec fn is_first_position(axes: Seq<AxisModel>, id: u64, i: int) -> bool {
    &&& 0 <= i < axes.len()
    &&& axes[i].id == id
    &&& forall|j: int| 0 <= j < i ==> #[trigger] axes[j].id != id
}

/// The error of an axis lookup.
#[derive(Debug)]
pub enum AxisMapError {
    /// No axis of the target has the identity of `axis`.
    AxisNotFound { axis: Axis },
}

/// The first position in `to` of the axis `axis`, by identity.
pub fn position_of(to: &[Axis], axis: &Axis) -> (r: Option<usize>)
    ensures
        match r {
            Some(i) => is_first_position(axes_view(to@), axis.id, i as int),
            None => !has_axis(axes_view(to@), axis.id),
        },
{
    let mut i: usize = 0;
    while i < to.len()
        invariant
            i <= to@.len(),
            forall|j: int| 0 <= j < i ==> #[trigger] axes_view(to@)[j].id != axis.id,
        decreases to@.len() - i,
    {
        if to[i].same_as(axis) {
            return Some(i);
        }
        i = i + 1;
    }
    None
}

/// Locates each axis of `from` in `to`, by identity.
pub fn map_axes(from: &[Axis], to: &[Axis]) -> (r: Vec<Result<usize, AxisMapError>>)
    ensures
        r@.len() == from@.len(),
        forall|i: int|
            0 <= i < from@.len() ==> match #[trigger] r@[i] {
                Ok(p) => is_first_position(axes_view(to@), from@[i].id, p as int),
                Err(AxisMapError::AxisNotFound { axis }) => !has_axis(axes_view(to@), from@[i].id)
                    && axis@ == from@[i]@,
            },
{
    let mut r: Vec<Result<usize, AxisMapError>> = Vec::new();
    let mut i: usize = 0;
    while i < from.len()
        invariant
            i <= from@.len(),
            r@.len() == i,
            forall|j: int|
                0 <= j < i ==> match #[trigger] r@[j] {
                    Ok(p) => is_first_position(axes_view(to@), from@[j].id, p as int),
                    Err(AxisMapError::AxisNotFound { axis }) => !has_axis(
                        axes_view(to@),
                        from@[j].id,
                    ) && axis@ == from@[j]@,
                },
        decreases from@.len() - i,
    {
        match position_of(to, &from[i]) {
            Some(p) => r.push(Ok(p)),
            None => r.push(Err(AxisMapError::AxisNotFound { axis: from[i].duplicate() })),
        }
        i = i + 1;
    }
    r
}

/// Same as [`map_axes`], with `None` for an axis that is not found.
pub fn map_axes_ok(from: &[Axis], to: &[Axis]) -> (r: Vec<Option<usize>>)
    ensures
        r@.len() == from@.len(),
        forall|i: int|
            0 <= i < from@.len() ==> match #[trigger] r@[i] {
                Some(p) => is_first_position(axes_view(to@), from@[i].id, p as int),
                None => !has_axis(axes_view(to@), from@[i].id),
            },
{
    let mut r: Vec<Option<usize>> = Vec::new();
    let mut i: usize = 0;
    while i < from.len()
        invariant
            i <= from@.len(),
            r@.len() == i,
            forall|j: int|
                0 <= j < i ==> match #[trigger] r@[j] {
                    Some(p) => is_first_position(axes_view(to@), from@[j].id, p as int),
                    None => !has_axis(axes_view(to@), from@[j].id),
                },
        decreases from@.len() - i,
    {
        r.push(position_of(to, &from[i]));
        i = i + 1;
    }
    r
}

/// Same as [`map_axes`], for axes that are all present in `to`.
pub fn map_axes_unwrap(from: &[Axis], to: &[Axis]) -> (r: Vec<usize>)
    requires
        forall|i: int| 0 <= i < from@.len() ==> has_axis(axes_view(to@), #[trigger] from@[i].id),
    ensures
        r@.len() == from@.len(),
        forall|i: int|
            0 <= i < from@.len() ==> is_first_position(
                axes_view(to@),
                from@[i].id,
                #[trigger] r@[i] as int,
            ),
{
    let mut r: Vec<usize> = Vec::new();
    let mut i: usize = 0;
    while i < from.len()
        invariant
            i <= from@.len(),
            r@.len() == i,
            forall|i: int|
                0 <= i < from@.len() ==> has_axis(axes_view(to@), #[trigger] from@[i].id),
            forall|j: int|
                0 <= j < i ==> is_first_position(axes_view(to@), from@[j].id, #[trigger] r@[j] as int),
        decreases from@.len() - i,
    {
        let p = position_of(to, &from[i]);
        proof {
            assert(has_axis(axes_view(to@), from@[i as int].id));
        }
        r.push(p.unwrap());
        i = i + 1;
    }
    r
}

/// Two first positions of the same identity are equal.
pub proof fn lemma_first_position_unique(axes: Seq<AxisModel>, id: u64, i: int, j: int)
    requires
        is_first_position(axes, id, i),
        is_first_position(axes, id, j),
    ensures
        i == j,
{
    if i < j {
        assert(axes[i].id == id);
    } else if j < i {
        assert(axes[j].id == id);
    }
}

/// `axes` with every axis of identity `id` replaced by `with`.
pub open spec fn substitute_axis(axes: Seq<AxisModel>, id: u64, with: AxisModel) -> Seq<AxisModel> {
    Seq::new(axes.len(), |i: int| if axes[i].id == id { with } else { axes[i] })
}

/// `axes` without the axes of identity `id`.
pub open spec fn drop_axis(axes: Seq<AxisModel>, id: u64) -> Seq<AxisModel>
    decreases axes.len(),
{
    if axes.len() == 0 {
        Seq::empty()
    } else if axes.last().id == id {
        drop_axis(axes.drop_last(), id)
    } else {
        drop_axis(axes.drop_last(), id).push(axes.last())
    }
}

/// A copy of `axes`.
pub fn copy_axes(axes: &[Axis]) -> (r: Vec<Axis>)
    ensures
        axes_view(r@) == axes_view(axes@),
{
    let mut r: Vec<Axis> = Vec::new();
    let mut i: usize = 0;
    while i < axes.len()
        invariant
            i <= axes@.len(),
            r@.len() == i,
            forall|j: int| 0 <= j < i ==> (#[trigger] r@[j])@ == axes@[j]@,
        decreases axes@.len() - i,
    {
        r.push(axes[i].duplicate());
        i = i + 1;
    }
    assert(axes_view(r@) =~= axes_view(axes@));
    r
}

/// A copy of `axes` without the axis at position `k`.
pub fn copy_axes_except(axes: &[Axis], k: usize) -> (r: Vec<Axis>)
    requires
        k < axes@.len(),
    ensures
        axes_view(r@) == axes_view(axes@).remove(k as int),
{
    let mut r: Vec<Axis> = Vec::new();
    let mut i: usize = 0;
    while i < axes.len()
        invariant
            k < axes@.len(),
            i <= axes@.len(),
            i <= k ==> r@.len() == i,
            i > k ==> r@.len() == i - 1,
            forall|j: int| 0 <= j < r@.len() && j < k ==> (#[trigger] r@[j])@ == axes@[j]@,
            forall|j: int| 0 <= j < r@.len() && j >= k ==> (#[trigger] r@[j])@ == axes@[j + 1]@,
        decreases axes@.len() - i,
    {
        if i != k {
            r.push(axes[i].duplicate());
        }
        i = i + 1;
    }
    assert(axes_view(r@) =~= axes_view(axes@).remove(k as int));
    r
}

/// A copy of `axes` without the axes that are `axis`.
pub fn copy_axes_without(axes: &[Axis], axis: &Axis) -> (r: Vec<Axis>)
    ensures
        axes_view(r@) == drop_axis(axes_view(axes@), axis.id),
{
    let ghost v = axes_view(axes@);
    let mut r: Vec<Axis> = Vec::new();
    let mut i: usize = 0;
    while i < axes.len()
        invariant
            v == axes_view(axes@),
            i <= axes@.len(),
            axes_view(r@) == drop_axis(v.subrange(0, i as int), axis.id),
        decreases axes@.len() - i,
    {
        assert(v.subrange(0, i + 1).drop_last() =~= v.subrange(0, i as int));
        if !axes[i].same_as(axis) {
            r.push(axes[i].duplicate());
        }
        i = i + 1;
        assert(axes_view(r@) =~= drop_axis(v.subrange(0, i as int), axis.id));
    }
    assert(v.subrange(0, axes@.len() as int) =~= v);
    r
}

/// A copy of `axes` with every axis that is `axis` replaced by a copy of `with`.
pub fn copy_axes_substituted(axes: &[Axis], axis: &Axis, with: &Axis) -> (r: Vec<Axis>)
    ensures
        axes_view(r@) == substitute_axis(axes_view(axes@), axis.id, with@),
{
    let mut r: Vec<Axis> = Vec::new();
    let mut i: usize = 0;
    while i < axes.len()
        invariant
            i <= axes@.len(),
            r@.len() == i,
            forall|j: int|
                0 <= j < i ==> (#[trigger] r@[j])@ == (if axes@[j].id == axis.id {
                    with@
                } else {
                    axes@[j]@
                }),
        decreases axes@.len() - i,
    {
        if axes[i].same_as(axis) {
            r.push(with.duplicate());
        } else {
            r.push(axes[i].duplicate());
        }
        i = i + 1;
    }
    assert(axes_view(r@) =~= substitute_axis(axes_view(axes@), axis.id, with@));
    r
}

/// The decimal digits of `n`, as characters.
pub open spec fn decimal_text(n: nat) -> Seq<char>
    decreases n,
{
    if n < 10 {
        seq![digit_char(n)]
    } else {
        decimal_text(n / 10).push(digit_char(n % 10))
    }
}

/// The character of the decimal digit `d`.
pub open spec fn digit_char(d: nat) -> char {
    if d == 0 { '0' }
    else if d == 1 { '1' }
    else if d == 2 { '2' }
    else if d == 3 { '3' }
    else if d == 4 { '4' }
    else if d == 5 { '5' }
    else if d == 6 { '6' }
    else if d == 7 { '7' }
    else if d == 8 { '8' }
    else { '9' }
}

/// The character of digit `d`, as a string.
fn digit_str(d: u64) -> (r: &'static str)
    requires
        d < 10,
    ensures
        r@ == seq![digit_char(d as nat)],
{
    if d == 0 {
        proof {
            reveal_strlit("0");
        }
        "0"
    } else if d == 1 {
        proof {
            reveal_strlit("1");
        }
        "1"
    } else if d == 2 {
        proof {
            reveal_strlit("2");
        }
        "2"
    } else if d == 3 {
        proof {
            reveal_strlit("3");
        }
        "3"
    } else if d == 4 {
        proof {
            reveal_strlit("4");
        }
        "4"
    } else if d == 5 {
        proof {
            reveal_strlit("5");
        }
        "5"
    } else if d == 6 {
        proof {
            reveal_strlit("6");
        }
        "6"
    } else if d == 7 {
        proof {
            reveal_strlit("7");
        }
        "7"
    } else if d == 8 {
        proof {
            reveal_strlit("8");
        }
        "8"
    } else {
        proof {
            reveal_strlit("9");
        }
        "9"
    }
}

/// The decimal text of `n`.
fn decimal_string(n: u64) -> (r: String)
    ensures
        r@ == decimal_text(n as nat),
    decreases n,
{
    let mut s = if n >= 10 {
        decimal_string(n / 10)
    } else {
        String::new()
    };
    let ghost before = s@;
    s.append(digit_str(n % 10));
    proof {
        if n < 10 {
            assert(s@ =~= seq![digit_char(n as nat)]);
        } else {
            assert(s@ =~= before.push(digit_char((n % 10) as nat)));
        }
    }
    s
}

/// How an axis is shown: its label, or `ax#` and its identity, then its range.
pub open spec fn axis_text(a: AxisModel) -> Seq<char> {
    let head = match a.label {
        Some(l) => l,
        None => seq!['a', 'x', '#'] + decimal_text(a.id as nat),
    };
    head + seq!['('] + decimal_text(a.lower as nat) + seq!['.', '.'] + decimal_text(a.upper as nat)
        + seq![')']
}

/// The first `n` axes shown one after the other, separated by `", "`.
pub open spec fn axes_text(axes: Seq<AxisModel>, n: int) -> Seq<char>
    decreases n,
{
    if n <= 0 {
        Seq::empty()
    } else if n == 1 {
        axis_text(axes[0])
    } else {
        axes_text(axes, n - 1) + seq![',', ' '] + axis_text(axes[n - 1])
    }
}

impl Axis {
    /// The axis as text: `x(0..10)` for an axis labelled `x`, else `ax#7(0..10)`.
    pub fn to_text(&self) -> (r: String)
        ensures
            r@ == axis_text(self@),
    {
        let mut s = match &self.label {
            Some(l) => l.clone(),
            None => {
                let mut h = String::from_str("ax#");
                proof {
                    reveal_strlit("ax#");
                }
                h.append(decimal_string(self.id).as_str());
                h
            },
        };
        proof {
            reveal_strlit("(");
            reveal_strlit("..");
            reveal_strlit(")");
        }
        s.append("(");
        s.append(decimal_string(self.lower as u64).as_str());
        s.append("..");
        s.append(decimal_string(self.upper as u64).as_str());
        s.append(")");
        assert(s@ =~= axis_text(self@));
        s
    }
}

/// The axes as text: `[x(0..10), ax#7(0..3)]`.
pub fn axes_to_string(axes: &[Axis]) -> (r: String)
    ensures
        r@ == seq!['['] + axes_text(axes_view(axes@), axes@.len() as int) + seq![']'],
{
    proof {
        reveal_strlit("[");
        reveal_strlit("]");
        reveal_strlit(", ");
    }
    let mut s = String::from_str("[");
    let mut i: usize = 0;
    while i < axes.len()
        invariant
            i <= axes@.len(),
            s@ == seq!['['] + axes_text(axes_view(axes@), i as int),
        decreases axes@.len() - i,
    {
        proof {
            reveal_strlit(", ");
        }
        let ghost before = s@;
        if i > 0 {
            s.append(", ");
        }
        s.append(axes[i].to_text().as_str());
        i = i + 1;
        assert(axes_view(axes@)[i - 1] == axes@[i - 1]@);
        if i > 1 {
            assert(s@ =~= before + seq![',', ' '] + axis_text(axes_view(axes@)[i - 1]));
        } else {
            assert(s@ =~= before + axis_text(axes_view(axes@)[i - 1]));
        }
        assert(s@ =~= seq!['['] + axes_text(axes_view(axes@), i as int));
    }
    s.append("]");
    s
}

} // verus!
