//! What the text of an expression tells of it.
use vstd::prelude::*;
use vstd::string::*;

use crate::either::Either;
use crate::expression::fmt::{
    base_field_text, challenge_text, debug_text, expr_text, expr_wtns, field_text, line_text,
    polynomial_text, quoted, value_text, wtns_text,
};
use crate::expression::leaf_laws::has_leaf;
use crate::expression::{Expression, WitnessId};
use crate::field::{e_one, e_zero, group_field, modulus, GoldilocksExt2};
use crate::mle::MultilinearExtension;
use crate::text::{decimal_text, lemma_decimal_text, spelled_number};

verus! {

broadcast use group_field;

/// The text of an element spells it, or, after a sign, what it lacks to zero: so it is written
/// where it lacks less than the largest word of 32 bits and the largest of 16. A signed number is
/// put in parentheses where they are asked for.
pub proof fn lemma_number_text(v: int)
    requires
        0 <= v < modulus(),
    ensures
        ({
            let (text, closed) = (base_field_text(v, false), base_field_text(v, true));
            &&& modulus() - v < 0xffff_ffff + 0xffff ==> {
                &&& text[0] == '-'
                &&& spelled_number(text.skip(1)) == modulus() - v
                &&& closed == seq!['('] + text + seq![')']
            }
            &&& modulus() - v >= 0xffff_ffff + 0xffff ==> {
                &&& spelled_number(text) == v
                &&& text[0] != '-'
                &&& closed == text
            }
        }),
{
    reveal_strlit("-");
    reveal_strlit("(");
    reveal_strlit(")");
    let text = base_field_text(v, false);
    assert("-"@ =~= seq!['-']);
    assert("("@ =~= seq!['(']);
    assert(")"@ =~= seq![')']);
    if modulus() - v < 0x1_0000_fffe {
        let digits = decimal_text((modulus() - v) as nat);
        lemma_decimal_text((modulus() - v) as nat);
        assert(text.skip(1) =~= digits);
        assert(base_field_text(v, true) =~= seq!['('] + text + seq![')']);
    } else {
        lemma_decimal_text(v as nat);
        assert(decimal_text(v as nat)[0] >= '0');
    }
}

/// The text of an element of the extension: that of its first coordinate if the second is zero, and
/// both in brackets otherwise.
pub proof fn lemma_element_text(e: GoldilocksExt2)
    ensures
        e.c1@ == 0 ==> field_text(e) == base_field_text(e.c0@, false),
        e.c1@ != 0 ==> field_text(e) == seq!['['] + base_field_text(e.c0@, false) + seq![',']
            + base_field_text(e.c1@, false) + seq![']'],
{
    reveal_strlit("[");
    reveal_strlit(",");
    reveal_strlit("]");
    assert("["@ =~= seq!['[']);
    assert(","@ =~= seq![',']);
    assert("]"@ =~= seq![']']);
}

/// The text of a challenge with a scalar is the scalar, a star and the text without it; that with an
/// offset is the text without it, a plus and the offset; a power stands after the name.
pub proof fn lemma_challenge_text(
    id: int,
    pow: int,
    scalar: GoldilocksExt2,
    offset: GoldilocksExt2,
    one: GoldilocksExt2,
    zero: GoldilocksExt2,
)
    requires
        one@ == e_one(),
        zero@ == e_zero(),
    ensures
        scalar@ != e_one() ==> challenge_text(id, pow, scalar, offset) == field_text(scalar)
            + seq!['*'] + challenge_text(id, pow, one, offset),
        offset@ != e_zero() ==> challenge_text(id, pow, scalar, offset) == challenge_text(
            id,
            pow,
            scalar,
            zero,
        ) + seq!['+'] + field_text(offset),
        pow > 1 ==> challenge_text(id, pow, one, zero) == challenge_text(id, 1, one, zero)
            + seq!['^'] + decimal_text(pow as nat),
        challenge_text(id, 1, one, zero) == "Challenge("@ + decimal_text(id as nat) + ")"@,
{
    reveal_strlit("*");
    reveal_strlit("+");
    reveal_strlit("^");
    assert("*"@ =~= seq!['*']);
    assert("+"@ =~= seq!['+']);
    assert("^"@ =~= seq!['^']);
    assert(e_one() != e_zero());
    if scalar@ != e_one() {
        assert(challenge_text(id, pow, scalar, offset) =~= field_text(scalar) + seq!['*']
            + challenge_text(id, pow, one, offset));
    }
    if offset@ != e_zero() {
        assert(challenge_text(id, pow, scalar, offset) =~= challenge_text(id, pow, scalar, zero)
            + seq!['+'] + field_text(offset));
    }
}

/// In a product a sum stands in parentheses, and nothing else does that a sum would not put there.
pub proof fn lemma_parentheses(a: Expression, b: Expression, x: Expression)
    ensures
        ({
            let sum = Expression::Sum(Box::new(a), Box::new(b));
            let product = Expression::Product(Box::new(a), Box::new(b));
            let scaled = Expression::ScaledSum(Box::new(x), Box::new(a), Box::new(b));
            &&& expr_text(sum, true) == seq!['('] + expr_text(sum, false) + seq![')']
            &&& expr_text(scaled, true) == seq!['('] + expr_text(scaled, false) + seq![')']
            &&& expr_text(product, true) == expr_text(product, false)
            &&& expr_text(sum, false) == expr_text(a, false) + seq![' ', '+', ' '] + expr_text(
                b,
                false,
            )
            &&& expr_text(product, false) == expr_text(a, true) + seq![' ', '*', ' '] + expr_text(
                b,
                true,
            )
            &&& expr_text(scaled, false) == expr_text(
                Expression::Product(Box::new(a), Box::new(x)),
                false,
            ) + seq![' ', '+', ' '] + expr_text(b, false)
        }),
{
    reveal_strlit("(");
    reveal_strlit(")");
    reveal_strlit(" + ");
    reveal_strlit(" * ");
    assert("("@ =~= seq!['(']);
    assert(")"@ =~= seq![')']);
    assert(" + "@ =~= seq![' ', '+', ' ']);
    assert(" * "@ =~= seq![' ', '*', ' ']);
    reveal_with_fuel(expr_text, 2);
}

/// The witnesses that are kept for an expression: those that were kept before come first, and its
/// own are added, each once.
pub proof fn lemma_kept_witnesses(e: Expression, kept: Seq<WitnessId>, id: WitnessId)
    ensures
        kept.is_prefix_of(expr_wtns(e, kept)),
        expr_wtns(e, kept).contains(id) <==> kept.contains(id) || has_leaf(
            e,
            |leaf: Expression| leaf == Expression::WitIn(id),
        ),
        kept.no_duplicates() ==> expr_wtns(e, kept).no_duplicates(),
    decreases e,
{
    match e {
        Expression::WitIn(own) => {
            let all = expr_wtns(e, kept);
            if !kept.contains(own) {
                assert(all[kept.len() as int] == own);
                if kept.contains(id) {
                    let k = choose|k: int| 0 <= k < kept.len() && kept[k] == id;
                    assert(all[k] == id);
                }
                if all.contains(id) && id != own {
                    let k = choose|k: int| 0 <= k < all.len() && all[k] == id;
                    assert(kept[k] == id);
                }
            }
        },
        Expression::Sum(a, b) => {
            lemma_kept_witnesses(*a, kept, id);
            lemma_kept_witnesses(*b, expr_wtns(*a, kept), id);
        },
        Expression::Product(a, b) => {
            lemma_kept_witnesses(*a, kept, id);
            lemma_kept_witnesses(*b, expr_wtns(*a, kept), id);
        },
        Expression::ScaledSum(x, a, b) => {
            lemma_kept_witnesses(*a, kept, id);
            lemma_kept_witnesses(*x, expr_wtns(*a, kept), id);
            lemma_kept_witnesses(*b, expr_wtns(*x, expr_wtns(*a, kept)), id);
        },
        _ => {},
    }
}

/// The lines of witnesses stand one below the other, each with the witness's own value and name.
pub proof fn lemma_witness_lines(
    a: Seq<WitnessId>,
    b: Seq<WitnessId>,
    wits_in: Seq<MultilinearExtension>,
    inst_id: int,
    names: Seq<String>,
)
    requires
        a.len() > 0,
        b.len() > 0,
    ensures
        wtns_text(a + b, wits_in, inst_id, names) == wtns_text(a, wits_in, inst_id, names)
            + seq!['\n'] + wtns_text(b, wits_in, inst_id, names),
        a.len() == 1 ==> wtns_text(a, wits_in, inst_id, names) == line_text(
            a[0] as int,
            value_text(wits_in[a[0] as int], inst_id),
            quoted(names[a[0] as int]@),
        ),
    decreases b.len(),
{
    reveal_strlit("\n");
    assert("\n"@ =~= seq!['\n']);
    let ab = a + b;
    assert(ab.drop_last() =~= a + b.drop_last());
    assert(ab.last() == b.last());
    if b.len() == 1 {
        assert(a + b.drop_last() =~= a);
    } else {
        lemma_witness_lines(a, b.drop_last(), wits_in, inst_id, names);
    }
    assert(wtns_text(ab, wits_in, inst_id, names) =~= wtns_text(a, wits_in, inst_id, names)
        + seq!['\n'] + wtns_text(b, wits_in, inst_id, names));
}

/// The text for debugging: a sum and a product stand in parentheses with the texts of their parts;
/// a leaf is told by its letter and its number.
pub proof fn lemma_debug_text(a: Expression, b: Expression)
    ensures
        ({
            let sum = Expression::Sum(Box::new(a), Box::new(b));
            let product = Expression::Product(Box::new(a), Box::new(b));
            &&& debug_text(sum) == expr_text(sum, true)
            &&& debug_text(product) == seq!['('] + expr_text(a, false) + seq![' ', '*', ' ']
                + expr_text(b, false) + seq![')']
        }),
        a matches Expression::WitIn(id) ==> debug_text(a) == seq!['W', '['] + decimal_text(
            id as nat,
        ) + seq![']'],
        a matches Expression::StructuralWitIn(id, _, _, _) ==> debug_text(a) == seq!['S', '[']
            + decimal_text(id as nat) + seq![']'],
        a matches Expression::Fixed(f) ==> debug_text(a) == seq!['F', '['] + decimal_text(
            f.0 as nat,
        ) + seq![']'],
        a matches Expression::Instance(i) ==> debug_text(a) == seq!['I', '['] + decimal_text(
            i.0 as nat,
        ) + seq![']'],
        a matches Expression::Constant(Either::Left(c)) ==> debug_text(a) == seq!['C', '[']
            + decimal_text(c@ as nat) + seq![']'],
        a matches Expression::Constant(Either::Right(c)) ==> debug_text(a) == seq!['C', '[']
            + polynomial_text(c) + seq![']'],
{
    reveal_strlit("(");
    reveal_strlit(")");
    reveal_strlit(" * ");
    reveal_strlit("W[");
    reveal_strlit("S[");
    reveal_strlit("F[");
    reveal_strlit("I[");
    reveal_strlit("C[");
    reveal_strlit("]");
    assert("("@ =~= seq!['(']);
    assert(")"@ =~= seq![')']);
    assert(" * "@ =~= seq![' ', '*', ' ']);
    assert("W["@ =~= seq!['W', '[']);
    assert("S["@ =~= seq!['S', '[']);
    assert("F["@ =~= seq!['F', '[']);
    assert("I["@ =~= seq!['I', '[']);
    assert("C["@ =~= seq!['C', '[']);
    assert("]"@ =~= seq![']']);
    let sum = Expression::Sum(Box::new(a), Box::new(b));
    assert(debug_text(sum) =~= expr_text(sum, true));
}

/// The text of an element as a polynomial: that of its parts joined by a plus, where a part that is
/// zero is left out unless both are, and one times the root is written as the root.
pub proof fn lemma_polynomial_text(e: GoldilocksExt2, first: GoldilocksExt2, second: GoldilocksExt2)
    requires
        first.c0@ == e.c0@,
        first.c1@ == 0,
        second.c0@ == 0,
        second.c1@ == e.c1@,
    ensures
        polynomial_text(first) == decimal_text(e.c0@ as nat),
        e.c1@ == 1 ==> polynomial_text(second) == seq!['X'],
        e.c1@ > 1 ==> polynomial_text(second) == decimal_text(e.c1@ as nat) + seq![' ', 'X'],
        e.c0@ != 0 && e.c1@ != 0 ==> polynomial_text(e) == polynomial_text(first)
            + seq![' ', '+', ' '] + polynomial_text(second),
        e.c0@ == 0 && e.c1@ != 0 ==> polynomial_text(e) == polynomial_text(second),
{
    reveal_strlit("X");
    reveal_strlit(" X");
    reveal_strlit(" + ");
    assert("X"@ =~= seq!['X']);
    assert(" X"@ =~= seq![' ', 'X']);
    assert(" + "@ =~= seq![' ', '+', ' ']);
}

} // verus!
