//! Recipes and generated columns that are held out for evaluation.
use super::coding::Recipe;
#[allow(unused_imports)]
use super::coding::recipe_name;
use super::encode::InputColumn;
use std::collections::BTreeSet;
use vstd::prelude::*;

verus! {

#[derive(Clone, Copy, Debug, PartialEq, Eq, Structural)]
pub enum DataProfile {
    Trend,
    TrendNullsFirst,
    TrendNullsLast,
    Runs,
    ManyRuns,
    SmallDomain,
    Sawtooth,
}

#[derive(Clone, Debug)]
pub struct HeldoutCase {
    pub id: usize,
    pub recipe: Recipe,
    pub profile: DataProfile,
    pub nullable: bool,
    pub patched: bool,
}

impl HeldoutCase {
    pub fn name(&self) -> (r: String)
        ensures
            r@ == recipe_name(self.recipe),
    {
        self.recipe.name()
    }
}

// ----- the recipes -----

pub open spec fn for_bits() -> Recipe {
    Recipe::For(Box::new(Recipe::BitPack))
}

pub open spec fn for_delta() -> Recipe {
    Recipe::For(Box::new(Recipe::Delta { restart_interval: 256, deltas: Box::new(Recipe::BitPack) }))
}

pub open spec fn unsigned_delta() -> Recipe {
    Recipe::UnsignedDelta { restart_interval: 256, deltas: Box::new(Recipe::BitPack) }
}

pub open spec fn dictionary_bits() -> Recipe {
    Recipe::Dictionary(Box::new(Recipe::BitPack))
}

pub open spec fn dictionary_runs() -> Recipe {
    Recipe::Dictionary(
        Box::new(Recipe::Rle { index_interval: 32, values: Box::new(Recipe::BitPack) }),
    )
}

pub open spec fn nullable_of(values: Recipe) -> Recipe {
    Recipe::Nullable { rank_interval: 256, values: Box::new(values) }
}

pub open spec fn patch_of(values: Recipe) -> Recipe {
    Recipe::Patch { index_interval: 32, values: Box::new(values) }
}

pub open spec fn frame_of(values: Recipe) -> Recipe {
    Recipe::Frame(Box::new(values))
}

pub open spec fn heldout_case(
    id: usize,
    recipe: Recipe,
    profile: DataProfile,
    nullable: bool,
    patched: bool,
) -> HeldoutCase {
    HeldoutCase { id, recipe, profile, nullable, patched }
}

/// The cases in order.
pub open spec fn heldout_list() -> Seq<HeldoutCase> {
    seq![
        heldout_case(0, nullable_of(for_bits()), DataProfile::Trend, true, false),
        heldout_case(1, patch_of(for_bits()), DataProfile::Trend, false, true),
        heldout_case(2, nullable_of(dictionary_runs()), DataProfile::Runs, true, false),
        heldout_case(3, frame_of(for_delta()), DataProfile::Trend, false, false),
        heldout_case(4, patch_of(dictionary_bits()), DataProfile::SmallDomain, false, true),
        heldout_case(5, nullable_of(patch_of(for_delta())), DataProfile::Trend, true, true),
        heldout_case(6, frame_of(nullable_of(for_bits())), DataProfile::Trend, true, false),
        heldout_case(7, nullable_of(for_delta()), DataProfile::Trend, true, false),
        heldout_case(8, patch_of(for_delta()), DataProfile::Trend, false, true),
        heldout_case(9, frame_of(dictionary_runs()), DataProfile::Runs, false, false),
        heldout_case(10, nullable_of(patch_of(dictionary_runs())), DataProfile::Runs, true, true),
        heldout_case(11, frame_of(patch_of(for_bits())), DataProfile::Trend, false, true),
        heldout_case(12, patch_of(dictionary_runs()), DataProfile::Runs, false, true),
        heldout_case(13, nullable_of(dictionary_bits()), DataProfile::SmallDomain, true, false),
        heldout_case(
            14,
            frame_of(nullable_of(patch_of(for_delta()))),
            DataProfile::Trend,
            true,
            true,
        ),
        heldout_case(15, nullable_of(unsigned_delta()), DataProfile::TrendNullsFirst, true, false),
        heldout_case(16, nullable_of(unsigned_delta()), DataProfile::TrendNullsLast, true, false),
        heldout_case(17, dictionary_runs(), DataProfile::ManyRuns, false, false),
        heldout_case(18, unsigned_delta(), DataProfile::Sawtooth, false, false),
    ]
}

fn make_for_bits() -> (r: Recipe)
    ensures
        r == for_bits(),
{
    Recipe::For(Box::new(Recipe::BitPack))
}

fn make_for_delta() -> (r: Recipe)
    ensures
        r == for_delta(),
{
    Recipe::For(Box::new(Recipe::Delta { restart_interval: 256, deltas: Box::new(Recipe::BitPack) }))
}

fn make_unsigned_delta() -> (r: Recipe)
    ensures
        r == unsigned_delta(),
{
    Recipe::UnsignedDelta { restart_interval: 256, deltas: Box::new(Recipe::BitPack) }
}

fn make_dictionary_bits() -> (r: Recipe)
    ensures
        r == dictionary_bits(),
{
    Recipe::Dictionary(Box::new(Recipe::BitPack))
}

fn make_dictionary_runs() -> (r: Recipe)
    ensures
        r == dictionary_runs(),
{
    Recipe::Dictionary(
        Box::new(Recipe::Rle { index_interval: 32, values: Box::new(Recipe::BitPack) }),
    )
}

fn make_nullable(values: Recipe) -> (r: Recipe)
    ensures
        r == nullable_of(values),
{
    Recipe::Nullable { rank_interval: 256, values: Box::new(values) }
}

fn make_patch(values: Recipe) -> (r: Recipe)
    ensures
        r == patch_of(values),
{
    Recipe::Patch { index_interval: 32, values: Box::new(values) }
}

fn make_frame(values: Recipe) -> (r: Recipe)
    ensures
        r == frame_of(values),
{
    Recipe::Frame(Box::new(values))
}

fn case(id: usize, recipe: Recipe, profile: DataProfile, nullable: bool, patched: bool) -> (r:
    HeldoutCase)
    ensures
        r == heldout_case(id, recipe, profile, nullable, patched),
{
    HeldoutCase { id, recipe, profile, nullable, patched }
}

/// The cases in order.
pub fn heldout_cases() -> (r: Vec<HeldoutCase>)
    ensures
        r@ == heldout_list(),
{
    let mut cases: Vec<HeldoutCase> = Vec::new();
    cases.push(case(0, make_nullable(make_for_bits()), DataProfile::Trend, true, false));
    cases.push(case(1, make_patch(make_for_bits()), DataProfile::Trend, false, true));
    cases.push(case(2, make_nullable(make_dictionary_runs()), DataProfile::Runs, true, false));
    cases.push(case(3, make_frame(make_for_delta()), DataProfile::Trend, false, false));
    cases.push(case(4, make_patch(make_dictionary_bits()), DataProfile::SmallDomain, false, true));
    cases.push(case(5, make_nullable(make_patch(make_for_delta())), DataProfile::Trend, true, true));
    cases.push(case(6, make_frame(make_nullable(make_for_bits())), DataProfile::Trend, true, false));
    cases.push(case(7, make_nullable(make_for_delta()), DataProfile::Trend, true, false));
    cases.push(case(8, make_patch(make_for_delta()), DataProfile::Trend, false, true));
    cases.push(case(9, make_frame(make_dictionary_runs()), DataProfile::Runs, false, false));
    cases.push(
        case(10, make_nullable(make_patch(make_dictionary_runs())), DataProfile::Runs, true, true),
    );
    cases.push(case(11, make_frame(make_patch(make_for_bits())), DataProfile::Trend, false, true));
    cases.push(case(12, make_patch(make_dictionary_runs()), DataProfile::Runs, false, true));
    cases.push(
        case(13, make_nullable(make_dictionary_bits()), DataProfile::SmallDomain, true, false),
    );
    cases.push(
        case(
            14,
            make_frame(make_nullable(make_patch(make_for_delta()))),
            DataProfile::Trend,
            true,
            true,
        ),
    );
    cases.push(
        case(15, make_nullable(make_unsigned_delta()), DataProfile::TrendNullsFirst, true, false),
    );
    cases.push(
        case(16, make_nullable(make_unsigned_delta()), DataProfile::TrendNullsLast, true, false),
    );
    cases.push(case(17, make_dictionary_runs(), DataProfile::ManyRuns, false, false));
    cases.push(case(18, make_unsigned_delta(), DataProfile::Sawtooth, false, false));
    assert(cases@ =~= heldout_list());
    cases
}

// ----- the columns -----

/// A row of a nullable column is null.
pub open spec fn profile_null(profile: DataProfile, rows: int, row: int) -> bool {
    match profile {
        DataProfile::TrendNullsFirst => row < rows / 16,
        DataProfile::TrendNullsLast => row >= rows - rows / 16,
        _ => row % 17 == 0,
    }
}

/// The value of a row, apart from exceptions.
pub open spec fn profile_value(profile: DataProfile, row: int) -> int {
    match profile {
        DataProfile::Runs => 2_000_000 + seq![10int, 20, 10, 30][row / 37 % 4],
        DataProfile::ManyRuns => 2_000_000 + row / 8 * 37 % 1_024,
        DataProfile::SmallDomain => 3_000_000 + seq![0int, 1, 7, 2, 1][row % 5],
        DataProfile::Sawtooth => 4_000_000 + 7 * (row % 256),
        _ => 1_000_000 + 7 * row + row % 5,
    }
}

pub open spec fn case_null(case: HeldoutCase, rows: int, row: int) -> bool {
    case.nullable && profile_null(case.profile, rows, row)
}

/// A row that is not null is kept as an exception.
pub open spec fn case_patched(case: HeldoutCase, rows: int, row: int) -> bool {
    case.patched && row % 997 == 503 && !case_null(case, rows, row)
}

pub open spec fn case_value(case: HeldoutCase, rows: int, row: int) -> Option<i64> {
    if case_null(case, rows, row) {
        None
    } else if case_patched(case, rows, row) {
        Some((profile_value(case.profile, row) + 1_000_000_000) as i64)
    } else {
        Some(profile_value(case.profile, row) as i64)
    }
}

/// The rows among the first `n` that are kept as exceptions.
pub open spec fn case_patches(case: HeldoutCase, rows: int, n: int) -> Set<usize> {
    Set::new(|row: usize| row < n && case_patched(case, rows, row as int))
}

fn is_null(profile: DataProfile, rows: usize, row: usize) -> (r: bool)
    ensures
        r == profile_null(profile, rows as int, row as int),
{
    match profile {
        DataProfile::TrendNullsFirst => row < rows / 16,
        DataProfile::TrendNullsLast => row >= rows - rows / 16,
        _ => row % 17 == 0,
    }
}

fn value_of(profile: DataProfile, row: usize) -> (r: i64)
    requires
        7 * row <= i64::MAX - 2_000_000_000,
    ensures
        r == profile_value(profile, row as int),
        r <= i64::MAX - 1_000_000_000,
{
    match profile {
        DataProfile::Runs => {
            let step: i64 = match row / 37 % 4 {
                0 => 10,
                1 => 20,
                2 => 10,
                _ => 30,
            };
            2_000_000 + step
        },
        DataProfile::ManyRuns => {
            proof {
                let group = row as int / 8;
                vstd::arithmetic::div_mod::lemma_mul_mod_noop_left(group, 37, 1_024);
            }
            2_000_000 + (row / 8 % 1_024 * 37 % 1_024) as i64
        },
        DataProfile::SmallDomain => {
            let step: i64 = match row % 5 {
                0 => 0,
                1 => 1,
                2 => 7,
                3 => 2,
                _ => 1,
            };
            3_000_000 + step
        },
        DataProfile::Sawtooth => 4_000_000 + 7 * (row % 256) as i64,
        _ => 1_000_000 + 7 * row as i64 + (row % 5) as i64,
    }
}

/// The column of a case.
pub fn input_for(case: &HeldoutCase, rows: usize) -> (r: InputColumn)
    requires
        7 * rows <= i64::MAX - 2_000_000_000,
    ensures
        r.values@ == Seq::new(rows as nat, |row: int| case_value(*case, rows as int, row)),
        r.patch_rows@ == case_patches(*case, rows as int, rows as int),
{
    broadcast use vstd::std_specs::btree::group_btree_axioms;

    let mut values: Vec<Option<i64>> = Vec::new();
    let mut patch_rows: BTreeSet<usize> = BTreeSet::new();
    let mut row: usize = 0;
    assert(patch_rows@ =~= case_patches(*case, rows as int, 0));
    while row < rows
        invariant
            row <= rows,
            7 * rows <= i64::MAX - 2_000_000_000,
            values@.len() == row,
            forall|k: int|
                0 <= k < row ==> #[trigger] values@[k] == case_value(*case, rows as int, k),
            patch_rows@ == case_patches(*case, rows as int, row as int),
        decreases rows - row,
    {
        broadcast use vstd::std_specs::btree::group_btree_axioms;

        let ghost before = patch_rows@;
        if case.nullable && is_null(case.profile, rows, row) {
            values.push(None);
        } else {
            let mut value: i64 = value_of(case.profile, row);
            if case.patched && row % 997 == 503 {
                value = value + 1_000_000_000;
                patch_rows.insert(row);
                assert(patch_rows@ =~= before.insert(row));
            }
            values.push(Some(value));
        }
        assert(patch_rows@ =~= case_patches(*case, rows as int, row + 1));
        row = row + 1;
    }
    assert(values@ =~= Seq::new(rows as nat, |row: int| case_value(*case, rows as int, row)));
    InputColumn { values, patch_rows }
}

} // verus!
