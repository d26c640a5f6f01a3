//! Which rows of a column hold a value.

use crate::dtype::Nullability;
use vstd::prelude::*;

verus! {

/// Which rows of a column hold a value and which are null.
#[derive(Debug)]
pub enum Validity {
    /// The column's type admits no null.
    NonNullable,
    /// The column's type admits nulls, and no row is null.
    AllValid,
    /// Every row is null.
    AllInvalid,
    /// One flag per row, set where the row holds a value.
    Array(Vec<bool>),
}

/// The value of a [`Validity`].
pub enum ValidityView {
    NonNullable,
    AllValid,
    AllInvalid,
    Array(Seq<bool>),
}

/// The number of set flags among the first `n`.
pub open spec fn valid_count(mask: Seq<bool>, n: int) -> nat
    decreases n,
{
    if n <= 0 {
        0
    } else {
        valid_count(mask, n - 1) + if mask[n - 1] {
            1nat
        } else {
            0nat
        }
    }
}

impl View for Validity {
    type V = ValidityView;

    open spec fn view(&self) -> ValidityView {
        match self {
            Validity::NonNullable => ValidityView::NonNullable,
            Validity::AllValid => ValidityView::AllValid,
            Validity::AllInvalid => ValidityView::AllInvalid,
            Validity::Array(flags) => ValidityView::Array(flags@),
        }
    }
}

impl ValidityView {
    /// Whether this can be the validity of a column of `len` rows.
    pub open spec fn covers(self, len: nat) -> bool {
        self matches ValidityView::Array(flags) ==> flags.len() == len
    }

    /// One flag for each of `len` rows.
    pub open spec fn mask(self, len: nat) -> Seq<bool> {
        match self {
            ValidityView::NonNullable | ValidityView::AllValid => Seq::new(len, |i: int| true),
            ValidityView::AllInvalid => Seq::new(len, |i: int| false),
            ValidityView::Array(flags) => flags,
        }
    }

    /// The validity of the rows `start..stop`.
    pub open spec fn slice(self, start: int, stop: int) -> ValidityView {
        match self {
            ValidityView::Array(flags) => ValidityView::Array(flags.subrange(start, stop)),
            _ => self,
        }
    }

    /// The validity of a column whose type has this nullability and which has no null.
    pub open spec fn of_nullability(nullability: Nullability) -> ValidityView {
        match nullability {
            Nullability::NonNullable => ValidityView::NonNullable,
            Nullability::Nullable => ValidityView::AllValid,
        }
    }

    /// The nullability of a column's type, where this is the column's validity.
    pub open spec fn nullability(self) -> Nullability {
        match self {
            ValidityView::NonNullable => Nullability::NonNullable,
            _ => Nullability::Nullable,
        }
    }
}

impl Validity {
    /// The validity of a column whose type has this nullability and which has no null.
    pub fn of_nullability(nullability: Nullability) -> (validity: Self)
        ensures
            validity@ == ValidityView::of_nullability(nullability),
            nullability is NonNullable ==> validity is NonNullable,
            nullability is Nullable ==> validity is AllValid,
    {
        match nullability {
            Nullability::NonNullable => Validity::NonNullable,
            Nullability::Nullable => Validity::AllValid,
        }
    }

    /// The number of rows that the validity speaks of, where it speaks of each on its own.
    pub fn maybe_len(&self) -> (len: Option<usize>)
        ensures
            match self@ {
                ValidityView::Array(flags) => len matches Some(n) && n == flags.len(),
                _ => len is None,
            },
            *self matches Validity::Array(flags) ==> (len matches Some(n) && n == flags@.len()),
            self !is Array ==> len is None,
    {
        match self {
            Validity::Array(flags) => Some(flags.len()),
            _ => None,
        }
    }

    /// The nullability of a column's type, where this is the column's validity.
    pub fn nullability(&self) -> (nullability: Nullability)
        ensures
            nullability == self@.nullability(),
            nullability is NonNullable <==> self is NonNullable,
    {
        match self {
            Validity::NonNullable => Nullability::NonNullable,
            _ => Nullability::Nullable,
        }
    }

    /// The validity of the rows `start..stop`.
    pub fn slice(&self, start: usize, stop: usize) -> (part: Self)
        requires
            start <= stop,
            self@ matches ValidityView::Array(flags) ==> stop <= flags.len(),
        ensures
            part@ == self@.slice(start as int, stop as int),
            self is NonNullable ==> part is NonNullable,
            self is AllValid ==> part is AllValid,
            self is AllInvalid ==> part is AllInvalid,
            *self matches Validity::Array(flags) ==> (part matches Validity::Array(cut) && cut@
                == flags@.subrange(start as int, stop as int)),
    {
        match self {
            Validity::NonNullable => Validity::NonNullable,
            Validity::AllValid => Validity::AllValid,
            Validity::AllInvalid => Validity::AllInvalid,
            Validity::Array(flags) => {
                let part: Vec<bool> = vstd::slice::slice_to_vec(&flags.as_slice()[start..stop]);
                Validity::Array(part)
            },
        }
    }

    /// One flag for each of `len` rows.
    pub fn execute_mask(&self, len: usize) -> (mask: Vec<bool>)
        requires
            self@.covers(len as nat),
        ensures
            mask@ == self@.mask(len as nat),
            mask@.len() == len,
            forall|i: int|
                0 <= i < len ==> #[trigger] mask@[i] == match *self {
                    Validity::NonNullable | Validity::AllValid => true,
                    Validity::AllInvalid => false,
                    Validity::Array(flags) => flags@[i],
                },
    {
        let mask: Vec<bool> = match self {
            Validity::NonNullable | Validity::AllValid => vec![true; len],
            Validity::AllInvalid => vec![false; len],
            Validity::Array(flags) => vstd::slice::slice_to_vec(flags.as_slice()),
        };
        assert(mask@ =~= self@.mask(len as nat));
        mask
    }

    /// The number of rows that hold a value among the first `index` of `len`.
    pub fn valid_count(&self, len: usize, index: usize) -> (count: usize)
        requires
            self@.covers(len as nat),
            index <= len,
        ensures
            count == valid_count(self@.mask(len as nat), index as int),
            self is NonNullable || self is AllValid ==> count == index,
            self is AllInvalid ==> count == 0,
            *self matches Validity::Array(flags) ==> count == flags@.take(index as int).filter(
                |flag: bool| flag,
            ).len(),
    {
        proof {
            if let Validity::Array(flags) = self {
                law_valid_count_is_filter_len(flags@, index as int);
            }
        }
        match self {
            Validity::NonNullable | Validity::AllValid => {
                proof {
                    lemma_valid_count_constant(self@.mask(len as nat), index as int, true);
                }
                index
            },
            Validity::AllInvalid => {
                proof {
                    lemma_valid_count_constant(self@.mask(len as nat), index as int, false);
                }
                0
            },
            Validity::Array(flags) => {
                let mut count: usize = 0;
                let mut i: usize = 0;
                while i < index
                    invariant
                        count <= i <= index <= flags@.len(),
                        count == valid_count(flags@, i as int),
                    decreases index - i,
                {
                    if flags[i] {
                        count += 1;
                    }
                    i += 1;
                }
                count
            },
        }
    }
}

impl Clone for Validity {
    fn clone(&self) -> (copy: Self)
        ensures
            copy@ == self@,
    {
        match self {
            Validity::NonNullable => Validity::NonNullable,
            Validity::AllValid => Validity::AllValid,
            Validity::AllInvalid => Validity::AllInvalid,
            Validity::Array(flags) => Validity::Array(
                vstd::slice::slice_to_vec(flags.as_slice()),
            ),
        }
    }
}

/// The child array in which an encoded array keeps its validity.
#[derive(Debug)]
pub enum ValidityChild {
    /// The same flag for each of `len` rows.
    Constant { value: bool, len: usize },
    /// One flag per row.
    Flags(Vec<bool>),
}

/// The value of a [`ValidityChild`].
pub enum ValidityChildView {
    Constant { value: bool, len: nat },
    Flags(Seq<bool>),
}

impl View for ValidityChild {
    type V = ValidityChildView;

    open spec fn view(&self) -> ValidityChildView {
        match self {
            ValidityChild::Constant { value, len } => ValidityChildView::Constant {
                value: *value,
                len: *len as nat,
            },
            ValidityChild::Flags(flags) => ValidityChildView::Flags(flags@),
        }
    }
}

impl ValidityChildView {
    /// The child that keeps `validity` for `len` rows, if it needs one.
    pub open spec fn of_validity(validity: ValidityView, len: nat) -> Option<ValidityChildView> {
        match validity {
            ValidityView::NonNullable | ValidityView::AllValid => None,
            ValidityView::AllInvalid => Some(ValidityChildView::Constant { value: false, len }),
            ValidityView::Array(flags) => Some(ValidityChildView::Flags(flags)),
        }
    }

    /// The validity that a child keeps, or the lack of one, in an array of this nullability.
    pub open spec fn to_validity(
        child: Option<ValidityChildView>,
        nullability: Nullability,
    ) -> ValidityView {
        match child {
            None => ValidityView::of_nullability(nullability),
            Some(ValidityChildView::Constant { value: true, len: _ }) => ValidityView::AllValid,
            Some(ValidityChildView::Constant { value: false, len: _ }) => ValidityView::AllInvalid,
            Some(ValidityChildView::Flags(flags)) => ValidityView::Array(flags),
        }
    }
}

/// The value of an optional child.
pub open spec fn child_view(child: Option<ValidityChild>) -> Option<ValidityChildView> {
    match child {
        None => None,
        Some(c) => Some(c@),
    }
}

impl Clone for ValidityChild {
    fn clone(&self) -> (copy: Self)
        ensures
            copy@ == self@,
    {
        match self {
            ValidityChild::Constant { value, len } => ValidityChild::Constant {
                value: *value,
                len: *len,
            },
            ValidityChild::Flags(flags) => ValidityChild::Flags(
                vstd::slice::slice_to_vec(flags.as_slice()),
            ),
        }
    }
}

/// The child that keeps `validity` for `len` rows, if it needs one.
pub fn validity_to_child(validity: &Validity, len: usize) -> (child: Option<ValidityChild>)
    ensures
        child_view(child) == ValidityChildView::of_validity(validity@, len as nat),
        validity is NonNullable || validity is AllValid ==> child is None,
        validity is AllInvalid ==> child == Some(ValidityChild::Constant { value: false, len }),
        *validity matches Validity::Array(flags) ==> (child matches Some(ValidityChild::Flags(kept))
            && kept@ == flags@),
{
    match validity {
        Validity::NonNullable | Validity::AllValid => None,
        Validity::AllInvalid => Some(ValidityChild::Constant { value: false, len }),
        Validity::Array(flags) => Some(
            ValidityChild::Flags(vstd::slice::slice_to_vec(flags.as_slice())),
        ),
    }
}

/// The validity that a child keeps, or the lack of one, in an array of this nullability.
pub fn child_to_validity(child: &Option<ValidityChild>, nullability: Nullability) -> (validity:
    Validity)
    ensures
        validity@ == ValidityChildView::to_validity(child_view(*child), nullability),
        child is None && nullability is NonNullable ==> validity is NonNullable,
        child is None && nullability is Nullable ==> validity is AllValid,
        *child matches Some(ValidityChild::Constant { value, len: _ }) ==> {
            &&& value ==> validity is AllValid
            &&& !value ==> validity is AllInvalid
        },
        *child matches Some(ValidityChild::Flags(flags)) ==> (validity matches Validity::Array(kept)
            && kept@ == flags@),
{
    match child {
        None => Validity::of_nullability(nullability),
        Some(ValidityChild::Constant { value, len: _ }) => if *value {
            Validity::AllValid
        } else {
            Validity::AllInvalid
        },
        Some(ValidityChild::Flags(flags)) => Validity::Array(
            vstd::slice::slice_to_vec(flags.as_slice()),
        ),
    }
}

/// A child keeps which rows hold a value: what is read back from it marks the same rows as the
/// validity that it was made for.
pub proof fn law_child_keeps_mask(validity: ValidityView, len: nat, nullability: Nullability)
    requires
        validity.covers(len),
    ensures
        ValidityChildView::to_validity(
            ValidityChildView::of_validity(validity, len),
            nullability,
        ).covers(len),
        ValidityChildView::to_validity(
            ValidityChildView::of_validity(validity, len),
            nullability,
        ).mask(len) == validity.mask(len),
{
    assert(ValidityChildView::to_validity(
        ValidityChildView::of_validity(validity, len),
        nullability,
    ).mask(len) =~= validity.mask(len));
}

/// Slicing a validity slices the flags of its rows.
pub proof fn law_slice_slices_mask(validity: ValidityView, len: nat, start: int, stop: int)
    requires
        validity.covers(len),
        0 <= start <= stop <= len,
    ensures
        validity.slice(start, stop).covers((stop - start) as nat),
        validity.slice(start, stop).mask((stop - start) as nat) == validity.mask(len).subrange(
            start,
            stop,
        ),
{
    assert(validity.slice(start, stop).mask((stop - start) as nat) =~= validity.mask(
        len,
    ).subrange(start, stop));
}

/// Counting equal flags.
pub proof fn lemma_valid_count_constant(mask: Seq<bool>, n: int, flag: bool)
    requires
        0 <= n <= mask.len(),
        forall|i: int| 0 <= i < n ==> mask[i] == flag,
    ensures
        valid_count(mask, n) == if flag {
            n
        } else {
            0
        },
    decreases n,
{
    if n > 0 {
        lemma_valid_count_constant(mask, n - 1, flag);
    }
}

/// A prefix has no more set flags than flags, and a longer one adds at most its own.
pub proof fn lemma_valid_count_bounds(mask: Seq<bool>, m: int, n: int)
    requires
        0 <= m <= n <= mask.len(),
    ensures
        valid_count(mask, m) <= valid_count(mask, n) <= valid_count(mask, m) + (n - m),
        valid_count(mask, n) <= n,
    decreases n,
{
    if n > 0 {
        if m < n {
            lemma_valid_count_bounds(mask, m, n - 1);
        } else {
            lemma_valid_count_bounds(mask, n - 1, n - 1);
        }
    }
}

/// Counting within a part of the flags.
pub proof fn lemma_valid_count_subrange(mask: Seq<bool>, start: int, stop: int, n: int)
    requires
        0 <= start <= stop <= mask.len(),
        0 <= n <= stop - start,
    ensures
        valid_count(mask.subrange(start, stop), n) == valid_count(mask, start + n) - valid_count(
            mask,
            start,
        ),
    decreases n,
{
    if n > 0 {
        lemma_valid_count_subrange(mask, start, stop, n - 1);
    }
}

/// Counting looks at the counted prefix only.
pub proof fn lemma_valid_count_prefix(a: Seq<bool>, b: Seq<bool>, n: int)
    requires
        0 <= n <= a.len(),
        n <= b.len(),
        forall|i: int| 0 <= i < n ==> a[i] == b[i],
    ensures
        valid_count(a, n) == valid_count(b, n),
    decreases n,
{
    if n > 0 {
        lemma_valid_count_prefix(a, b, n - 1);
    }
}

/// The number of set flags among the first `n` is how many of them a filter on the flags keeps.
pub proof fn law_valid_count_is_filter_len(mask: Seq<bool>, n: int)
    requires
        0 <= n <= mask.len(),
    ensures
        valid_count(mask, n) == mask.take(n).filter(|flag: bool| flag).len(),
    decreases n,
{
    reveal(Seq::filter);
    if n > 0 {
        law_valid_count_is_filter_len(mask, n - 1);
        assert(mask.take(n).drop_last() =~= mask.take(n - 1));
    } else {
        assert(mask.take(0) =~= Seq::<bool>::empty());
    }
}

/// What a validity says of each row: a column that admits no null, or has none, has a value in
/// every row; one of nulls only in none; and flags speak for themselves, one for each row.
pub proof fn law_mask_of_row(validity: ValidityView, len: nat, i: int)
    requires
        validity.covers(len),
        0 <= i < len,
    ensures
        validity.mask(len).len() == len,
        validity is NonNullable ==> validity.mask(len)[i],
        validity is AllValid ==> validity.mask(len)[i],
        validity is AllInvalid ==> !validity.mask(len)[i],
        validity matches ValidityView::Array(flags) ==> flags.len() == len && validity.mask(len)[i]
            == flags[i],
{
}

/// Flags speak of a column of `len` rows where there are `len` of them; any other validity speaks of
/// columns of every length.
pub proof fn law_covers(validity: ValidityView, len: nat)
    ensures
        validity matches ValidityView::Array(flags) ==> (validity.covers(len) <==> flags.len()
            == len),
        !(validity is Array) ==> validity.covers(len),
{
}

/// A column admits no null exactly where its validity says so, and a column without nulls has the
/// validity of its nullability.
pub proof fn law_nullability_of_validity(validity: ValidityView, nullability: Nullability)
    ensures
        validity.nullability() is NonNullable <==> validity is NonNullable,
        ValidityView::of_nullability(nullability).nullability() == nullability,
        nullability is NonNullable ==> ValidityView::of_nullability(nullability) is NonNullable,
        nullability is Nullable ==> ValidityView::of_nullability(nullability) is AllValid,
{
}

/// Which validity needs a child, and what the child holds: none where there are no nulls, a constant
/// of `len` unset flags where there are only nulls, and else the flags.
pub proof fn law_child_of_validity(validity: ValidityView, len: nat)
    ensures
        validity is NonNullable || validity is AllValid ==> ValidityChildView::of_validity(
            validity,
            len,
        ) is None,
        validity is AllInvalid ==> ValidityChildView::of_validity(validity, len) == Some(
            ValidityChildView::Constant { value: false, len },
        ),
        validity matches ValidityView::Array(flags) ==> ValidityChildView::of_validity(
            validity,
            len,
        ) == Some(ValidityChildView::Flags(flags)),
{
}

/// What a child says of each row: a constant the same of all, flags one each, and no child that no
/// row is null. The validity of an array without a child has the array's nullability.
pub proof fn law_mask_of_child(
    child: Option<ValidityChildView>,
    nullability: Nullability,
    len: nat,
    i: int,
)
    requires
        0 <= i < len,
        child matches Some(ValidityChildView::Flags(flags)) ==> flags.len() == len,
    ensures
        child is None ==> ValidityChildView::to_validity(child, nullability).mask(len)[i],
        child is None ==> ValidityChildView::to_validity(child, nullability).nullability()
            == nullability,
        child matches Some(ValidityChildView::Constant { value, len: _ })
            ==> ValidityChildView::to_validity(child, nullability).mask(len)[i] == value,
        child matches Some(ValidityChildView::Flags(flags)) ==> ValidityChildView::to_validity(
            child,
            nullability,
        ).mask(len)[i] == flags[i],
        child is Some ==> ValidityChildView::to_validity(child, nullability).nullability()
            is Nullable,
{
}

/// Two children are the same where they are of the same form and hold the same flags.
pub proof fn law_same_child(a: Option<ValidityChild>, b: Option<ValidityChild>)
    ensures
        child_view(a) == child_view(b) <==> match (a, b) {
            (None, None) => true,
            (
                Some(ValidityChild::Constant { value, len }),
                Some(ValidityChild::Constant { value: other, len: other_len }),
            ) => value == other && len == other_len,
            (
                Some(ValidityChild::Flags(flags)),
                Some(ValidityChild::Flags(other)),
            ) => flags@ == other@,
            _ => false,
        },
{
}

/// Two validities are the same where they are of the same form and hold the same flags.
pub proof fn law_same_validity(a: Validity, b: Validity)
    ensures
        a@ == b@ <==> match (a, b) {
            (Validity::NonNullable, Validity::NonNullable) => true,
            (Validity::AllValid, Validity::AllValid) => true,
            (Validity::AllInvalid, Validity::AllInvalid) => true,
            (Validity::Array(flags), Validity::Array(other)) => flags@ == other@,
            _ => false,
        },
{
}

} // verus!
