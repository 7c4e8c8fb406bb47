//! The names of sets: each kind has a start of its own, and within a kind a set is named after
//! its unit's key or its position. Keys that differ make names that differ.

use vstd::prelude::*;
use vstd::string::*;

use crate::coverage::distinct_names;
use crate::laws::{lemma_heavy_sets, lemma_helper_sets, lemma_mixed_sets, lemma_positions};
use crate::number::{digit_char, digits};
use crate::plan::{InputView, SetView};

verus! {

/// No two units have the same key.
pub open spec fn distinct_unit_keys(input: InputView) -> bool {
    forall|i: int, j: int|
        0 <= i < j < input.units().len() ==> (#[trigger] input.units()[i]).key != (
        #[trigger] input.units()[j]).key
}

proof fn lemma_digits_differ(a: nat, b: nat)
    requires
        a != b,
    ensures
        digits(a) != digits(b),
    decreases a,
{
    if a >= 10 && b >= 10 {
        let x = digits(a / 10).push(digit_char(a % 10));
        let y = digits(b / 10).push(digit_char(b % 10));
        if x == y {
            assert(x.drop_last() =~= digits(a / 10));
            assert(y.drop_last() =~= digits(b / 10));
            assert(x.last() == digit_char(a % 10));
            assert(y.last() == digit_char(b % 10));
            if a / 10 != b / 10 {
                lemma_digits_differ(a / 10, b / 10);
            } else {
                lemma_digit_chars_differ(a % 10, b % 10);
            }
        }
    } else if a < 10 && b < 10 {
        assert(digits(a)[0] == digit_char(a));
        assert(digits(b)[0] == digit_char(b));
        lemma_digit_chars_differ(a, b);
    } else {
        lemma_some_digits(a / 10);
        lemma_some_digits(b / 10);
        assert((digits(a).len() == 1) == (a < 10));
        assert((digits(b).len() == 1) == (b < 10));
    }
}

proof fn lemma_some_digits(n: nat)
    ensures
        digits(n).len() >= 1,
{
}

proof fn lemma_digit_chars_differ(a: nat, b: nat)
    requires
        a < 10,
        b < 10,
        a != b,
    ensures
        digit_char(a) != digit_char(b),
{
    assert(digit_char(a) as u32 == 48 + a);
    assert(digit_char(b) as u32 == 48 + b);
}

/// Names with the same start differ where they go on differently.
proof fn lemma_starts_alike(start: Seq<char>, a: Seq<char>, b: Seq<char>)
    requires
        a != b,
    ensures
        start + a != start + b,
{
    if start + a == start + b {
        assert((start + a).skip(start.len() as int) =~= a);
        assert((start + b).skip(start.len() as int) =~= b);
    }
}

pub proof fn lemma_positions_ascend(input: InputView, heavy: bool, bound: nat)
    ensures
        forall|i: int, j: int|
            0 <= i < j < input.positions(heavy, bound).len() ==> input.positions(heavy, bound)[i]
                < input.positions(heavy, bound)[j],
    decreases bound,
{
    if bound > 0 {
        lemma_positions_ascend(input, heavy, (bound - 1) as nat);
        lemma_positions(input, heavy, (bound - 1) as nat);
        let before = input.positions(heavy, (bound - 1) as nat);
        let after = input.positions(heavy, bound);
        assert forall|i: int, j: int| 0 <= i < j < after.len() implies after[i] < after[j] by {
            assert(after[i] == before[i]);
            if j < before.len() {
                assert(after[j] == before[j]);
            }
        }
    }
}

proof fn lemma_keys_differ(input: InputView, i: int, j: int)
    requires
        distinct_unit_keys(input),
    ensures
        0 <= i < j < input.light().len() ==> input.light()[i].key != input.light()[j].key,
        0 <= i < j < input.heavies().len() ==> input.heavies()[i].key != input.heavies()[j].key,
{
    let count = input.units().len();
    lemma_positions_ascend(input, false, count);
    lemma_positions_ascend(input, true, count);
    lemma_positions(input, false, count);
    lemma_positions(input, true, count);
    if 0 <= i < j < input.light().len() {
        let places = input.positions(false, count);
        assert(input.units()[places[i]].key != input.units()[places[j]].key);
    }
    if 0 <= i < j < input.heavies().len() {
        let places = input.positions(true, count);
        assert(input.units()[places[i]].key != input.units()[places[j]].key);
    }
}

/// No two sets of a list have the same name.
spec fn own_names(sets: Seq<SetView>) -> bool {
    forall|i: int, j: int|
        0 <= i < j < sets.len() ==> (#[trigger] sets[i]).name != (#[trigger] sets[j]).name
}

/// Every name of a list begins with this character.
spec fn begin_with(sets: Seq<SetView>, c: char) -> bool {
    forall|i: int|
        0 <= i < sets.len() ==> (#[trigger] sets[i]).name.len() > 0 && sets[i].name[0] == c
}

proof fn lemma_helper_names(input: InputView, bound: nat)
    requires
        distinct_unit_keys(input),
        bound <= input.light().len(),
    ensures
        own_names(input.helper_sets(bound)),
        begin_with(input.helper_sets(bound), 'g'),
    decreases bound,
{
    reveal_strlit("g_");
    if bound > 0 {
        lemma_helper_names(input, (bound - 1) as nat);
        let before = input.helper_sets((bound - 1) as nat);
        let after = input.helper_sets(bound);
        assert forall|i: int, j: int| 0 <= i < j < after.len() implies (#[trigger] after[i]).name
            != (#[trigger] after[j]).name by {
            if j >= before.len() {
                assert(after[i] == before[i]);
                lemma_helper_sets(input, (bound - 1) as nat, i);
                let k = choose|k: int|
                    0 <= k < bound - 1 && before[i] == input.helper_set(#[trigger] input.light()[k]);
                lemma_keys_differ(input, k, bound - 1);
                lemma_starts_alike("g_"@, input.light()[k].key, input.light()[bound - 1].key);
            } else {
                assert(after[i] == before[i] && after[j] == before[j]);
            }
        }
        assert forall|i: int| 0 <= i < after.len() implies (#[trigger] after[i]).name.len() > 0
            && after[i].name[0] == 'g' by {
            if i < before.len() {
                assert(after[i] == before[i]);
            }
        }
    }
}

proof fn lemma_mixed_names(input: InputView, bound: nat)
    requires
        distinct_unit_keys(input),
        bound <= input.light().len(),
    ensures
        own_names(input.mixed_sets(bound)),
        begin_with(input.mixed_sets(bound), 'l'),
    decreases bound,
{
    reveal_strlit("llmimg_");
    if bound > 0 {
        lemma_mixed_names(input, (bound - 1) as nat);
        let before = input.mixed_sets((bound - 1) as nat);
        let after = input.mixed_sets(bound);
        assert forall|i: int, j: int| 0 <= i < j < after.len() implies (#[trigger] after[i]).name
            != (#[trigger] after[j]).name by {
            if j >= before.len() {
                assert(after[i] == before[i]);
                lemma_mixed_sets(input, (bound - 1) as nat, i);
                let k = choose|k: int|
                    0 <= k < bound - 1 && input.beside(#[trigger] input.light()[k]).len() > 0
                        && before[i] == input.mixed_set(input.light()[k]);
                lemma_keys_differ(input, k, bound - 1);
                lemma_starts_alike("llmimg_"@, input.light()[k].key, input.light()[bound - 1].key);
            } else {
                assert(after[i] == before[i] && after[j] == before[j]);
            }
        }
        assert forall|i: int| 0 <= i < after.len() implies (#[trigger] after[i]).name.len() > 0
            && after[i].name[0] == 'l' by {
            if i < before.len() {
                assert(after[i] == before[i]);
            }
        }
    }
}

proof fn lemma_heavy_names(input: InputView, bound: nat)
    requires
        distinct_unit_keys(input),
        bound <= input.heavies().len(),
    ensures
        own_names(input.heavy_sets(bound)),
        begin_with(input.heavy_sets(bound), 'h'),
    decreases bound,
{
    reveal_strlit("heavy_");
    if bound > 0 {
        lemma_heavy_names(input, (bound - 1) as nat);
        let before = input.heavy_sets((bound - 1) as nat);
        let after = input.heavy_sets(bound);
        assert forall|i: int, j: int| 0 <= i < j < after.len() implies (#[trigger] after[i]).name
            != (#[trigger] after[j]).name by {
            if j >= before.len() {
                assert(after[i] == before[i]);
                lemma_heavy_sets(input, (bound - 1) as nat, i);
                let k = choose|k: int|
                    0 <= k < bound - 1 && !input.cannot_run(#[trigger] input.heavies()[k])
                        && before[i] == input.heavy_set(input.heavies()[k]);
                lemma_keys_differ(input, k, bound - 1);
                lemma_starts_alike(
                    "heavy_"@,
                    input.heavies()[k].key,
                    input.heavies()[bound - 1].key,
                );
            } else {
                assert(after[i] == before[i] && after[j] == before[j]);
            }
        }
        assert forall|i: int| 0 <= i < after.len() implies (#[trigger] after[i]).name.len() > 0
            && after[i].name[0] == 'h' by {
            if i < before.len() {
                assert(after[i] == before[i]);
            }
        }
    }
}

proof fn lemma_pack_names(input: InputView)
    ensures
        own_names(input.pack_sets()),
        begin_with(input.pack_sets(), 'p'),
{
    reveal_strlit("pack");
    let sets = input.pack_sets();
    assert forall|i: int, j: int| 0 <= i < j < sets.len() implies (#[trigger] sets[i]).name != (
    #[trigger] sets[j]).name by {
        lemma_digits_differ((i + 1) as nat, (j + 1) as nat);
        lemma_starts_alike("pack"@, digits((i + 1) as nat), digits((j + 1) as nat));
    }
}

proof fn lemma_image_names(input: InputView)
    ensures
        own_names(input.image_sets()),
        begin_with(input.image_sets(), 'i'),
{
    reveal_strlit("images");
    let sets = input.image_sets();
    assert forall|i: int, j: int| 0 <= i < j < sets.len() implies (#[trigger] sets[i]).name != (
    #[trigger] sets[j]).name by {
        lemma_some_digits((j + 1) as nat);
        if i > 0 {
            lemma_digits_differ((i + 1) as nat, (j + 1) as nat);
            lemma_starts_alike("images"@, digits((i + 1) as nat), digits((j + 1) as nat));
        } else {
            assert(sets[i].name.len() == "images"@.len());
            assert(sets[j].name.len() > "images"@.len());
        }
    }
}

/// Lists whose names begin differently are, one behind the other, as distinct as each is.
proof fn lemma_joined_names(a: Seq<SetView>, b: Seq<SetView>, c: char)
    requires
        own_names(a),
        own_names(b),
        begin_with(b, c),
        forall|i: int| 0 <= i < a.len() ==> (#[trigger] a[i]).name.len() > 0 && a[i].name[0] != c,
    ensures
        own_names(a + b),
{
    let all = a + b;
    assert forall|i: int, j: int| 0 <= i < j < all.len() implies (#[trigger] all[i]).name != (
    #[trigger] all[j]).name by {
        if j < a.len() {
            assert(all[i] == a[i] && all[j] == a[j]);
        } else if i >= a.len() {
            assert(all[i] == b[i - a.len()] && all[j] == b[j - a.len()]);
        } else {
            assert(all[i] == a[i] && all[j] == b[j - a.len()]);
        }
    }
}

/// Units with different keys make sets with different names: no set that the roster calls for
/// has the name of another.
pub proof fn law_different_keys_make_different_names(input: InputView)
    requires
        distinct_unit_keys(input),
    ensures
        distinct_names(input),
{
    let a = input.aux_sets();
    let b = input.helper_sets(input.light().len());
    let c = input.image_sets();
    let d = input.pack_sets();
    let e = input.mixed_sets(input.light().len());
    let f = input.heavy_sets(input.heavies().len());
    reveal_strlit("aux");
    lemma_helper_names(input, input.light().len());
    lemma_image_names(input);
    lemma_pack_names(input);
    lemma_mixed_names(input, input.light().len());
    lemma_heavy_names(input, input.heavies().len());
    assert(own_names(a));
    assert(begin_with(a, 'a'));
    lemma_joined_names(a, b, 'g');
    lemma_joined_names(a + b, c, 'i');
    lemma_joined_names(a + b + c, d, 'p');
    lemma_joined_names(a + b + c + d, e, 'l');
    lemma_joined_names(a + b + c + d + e, f, 'h');
    let all = input.all_sets();
    assert(all == a + b + c + d + e + f);
    assert forall|i: int, j: int|
        0 <= i < all.len() && 0 <= j < all.len() && i != j implies (#[trigger] all[i]).name != (
    #[trigger] all[j]).name by {
        if i < j {
            assert(all[i].name != all[j].name);
        } else {
            assert(all[j].name != all[i].name);
        }
    }
}

} // verus!
