//! Text of expressions.
use vstd::prelude::*;
use vstd::string::*;

use crate::either::Either;
use crate::expression::{Expression, WitnessId};
use crate::field::{
    e_one, e_zero, group_field, modulus, Goldilocks, GoldilocksExt2, MODULUS_U64,
};
use crate::mle::{FieldType, MultilinearExtension};
use crate::text::{append, decimal, decimal_text};

verus! {

broadcast use group_field;

/// Text in parentheses.
pub open spec fn parens_text(s: Seq<char>, add_parens: bool) -> Seq<char> {
    if add_parens {
        "("@ + s + ")"@
    } else {
        s
    }
}

/// The text of a base element: small negative numbers are written with a sign.
pub open spec fn base_field_text(v: int, add_parens: bool) -> Seq<char> {
    if v > modulus() - 0x1_0000_fffe {
        parens_text("-"@ + decimal_text((modulus() - v) as nat), add_parens)
    } else {
        decimal_text(v as nat)
    }
}

/// The text of an element of the extension: both coordinates unless the second is zero.
pub open spec fn field_text(e: GoldilocksExt2) -> Seq<char> {
    if e.c1@ == 0 {
        base_field_text(e.c0@, false)
    } else {
        "["@ + base_field_text(e.c0@, false) + ","@ + base_field_text(e.c1@, false) + "]"@
    }
}

/// The text of a challenge.
pub open spec fn challenge_text(
    id: int,
    pow: int,
    scalar: GoldilocksExt2,
    offset: GoldilocksExt2,
) -> Seq<char> {
    let name = "Challenge("@ + decimal_text(id as nat) + ")"@;
    if pow == 1 && scalar@ == e_one() && offset@ == e_zero() {
        name
    } else {
        let with_scalar = if scalar@ != e_one() {
            field_text(scalar) + "*"@ + name
        } else {
            name
        };
        let with_pow = if pow > 1 {
            with_scalar + "^"@ + decimal_text(pow as nat)
        } else {
            with_scalar
        };
        if offset@ != e_zero() {
            with_pow + "+"@ + field_text(offset)
        } else {
            with_pow
        }
    }
}

/// The text of an expression; sums are put in parentheses on demand.
pub open spec fn expr_text(e: Expression, add_parens_sum: bool) -> Seq<char>
    decreases e,
{
    match e {
        Expression::WitIn(id) => "WitIn("@ + decimal_text(id as nat) + ")"@,
        Expression::StructuralWitIn(id, max_len, offset, multi_factor) => "StructuralWitIn("@
            + decimal_text(id as nat) + ", "@ + decimal_text(max_len as nat) + ", "@ + decimal_text(
            offset as nat,
        ) + ", "@ + decimal_text(multi_factor as nat) + ")"@,
        Expression::Challenge(id, pow, scalar, offset) => challenge_text(
            id as int,
            pow as int,
            scalar,
            offset,
        ),
        Expression::Constant(c) => match c {
            Either::Left(b) => base_field_text(b@, true),
            Either::Right(x) => field_text(x),
        },
        Expression::Fixed(f) => "Fixed("@ + decimal_text(f.0 as nat) + ")"@,
        Expression::Instance(i) => "Instance("@ + decimal_text(i.0 as nat) + ")"@,
        Expression::Sum(a, b) => parens_text(
            expr_text(*a, false) + " + "@ + expr_text(*b, false),
            add_parens_sum,
        ),
        Expression::Product(a, b) => expr_text(*a, true) + " * "@ + expr_text(*b, true),
        Expression::ScaledSum(x, a, b) => parens_text(
            expr_text(*a, true) + " * "@ + expr_text(*x, true) + " + "@ + expr_text(*b, false),
            add_parens_sum,
        ),
    }
}

/// The witnesses of an expression in the order of its text, each once, after those in `acc`.
pub open spec fn expr_wtns(e: Expression, acc: Seq<WitnessId>) -> Seq<WitnessId>
    decreases e,
{
    match e {
        Expression::WitIn(id) => if acc.contains(id) {
            acc
        } else {
            acc.push(id)
        },
        Expression::Sum(a, b) => expr_wtns(*b, expr_wtns(*a, acc)),
        Expression::Product(a, b) => expr_wtns(*b, expr_wtns(*a, acc)),
        Expression::ScaledSum(x, a, b) => expr_wtns(*b, expr_wtns(*x, expr_wtns(*a, acc))),
        _ => acc,
    }
}

/// Puts text in parentheses.
pub fn parens(s: String, add_parens: bool) -> (r: String)
    ensures
        r@ == parens_text(s@, add_parens),
{
    if add_parens {
        append(append("(".to_owned(), s.as_str()), ")")
    } else {
        s
    }
}

/// The text of a base element.
pub fn base_field(element: &Goldilocks, add_parens: bool) -> (r: String)
    ensures
        r@ == base_field_text(element@, add_parens),
{
    let value: u64 = element.as_canonical_u64();
    if value > MODULUS_U64 - 0x1_0000_fffe {
        parens(append("-".to_owned(), decimal(MODULUS_U64 - value).as_str()), add_parens)
    } else {
        decimal(value)
    }
}

/// The text of an element of the extension.
pub fn field(element: &GoldilocksExt2) -> (r: String)
    ensures
        r@ == field_text(*element),
{
    let first = base_field(&element.c0, false);
    if element.c1 == Goldilocks::zero() {
        first
    } else {
        let opened = append("[".to_owned(), first.as_str());
        let both = append(append(opened, ","), base_field(&element.c1, false).as_str());
        append(both, "]")
    }
}

fn challenge(id: u16, pow: usize, scalar: &GoldilocksExt2, offset: &GoldilocksExt2) -> (r: String)
    ensures
        r@ == challenge_text(id as int, pow as int, *scalar, *offset),
{
    let one = GoldilocksExt2::one();
    let zero = GoldilocksExt2::zero();
    let name = append(append("Challenge(".to_owned(), decimal(id as u64).as_str()), ")");
    if pow == 1 && *scalar == one && *offset == zero {
        name
    } else {
        let mut s = if *scalar != one {
            append(append(field(scalar), "*"), name.as_str())
        } else {
            name
        };
        if pow > 1 {
            s = append(append(s, "^"), decimal(pow as u64).as_str());
        }
        if *offset != zero {
            s = append(append(s, "+"), field(offset).as_str());
        }
        s
    }
}

fn contains_id(ids: &Vec<WitnessId>, id: WitnessId) -> (r: bool)
    ensures
        r == ids@.contains(id),
{
    let mut i: usize = 0;
    while i < ids.len()
        invariant
            i <= ids@.len(),
            forall|k: int| 0 <= k < i ==> #[trigger] ids@[k] != id,
        decreases ids@.len() - i,
    {
        if ids[i] == id {
            return true;
        }
        i = i + 1;
    }
    false
}

/// The text of an expression; the witnesses that occur in it are added to `wtns`.
pub fn expr(expression: &Expression, wtns: &mut Vec<WitnessId>, add_parens_sum: bool) -> (r: String)
    ensures
        r@ == expr_text(*expression, add_parens_sum),
        final(wtns)@ == expr_wtns(*expression, old(wtns)@),
    decreases expression,
{
    match expression {
        Expression::WitIn(id) => {
            if !contains_id(wtns, *id) {
                wtns.push(*id);
            }
            append(append("WitIn(".to_owned(), decimal(*id as u64).as_str()), ")")
        },
        Expression::StructuralWitIn(id, max_len, offset, multi_factor) => {
            let a = append("StructuralWitIn(".to_owned(), decimal(*id as u64).as_str());
            let b = append(append(a, ", "), decimal(*max_len as u64).as_str());
            let c = append(append(b, ", "), decimal(*offset as u64).as_str());
            let d = append(append(c, ", "), decimal(*multi_factor as u64).as_str());
            append(d, ")")
        },
        Expression::Challenge(id, pow, scalar, offset) => challenge(*id, *pow, scalar, offset),
        Expression::Constant(c) => match c {
            Either::Left(b) => base_field(b, true),
            Either::Right(x) => field(x),
        },
        Expression::Fixed(f) => append(
            append("Fixed(".to_owned(), decimal(f.0 as u64).as_str()),
            ")",
        ),
        Expression::Instance(i) => append(
            append("Instance(".to_owned(), decimal(i.0 as u64).as_str()),
            ")",
        ),
        Expression::Sum(a, b) => {
            let left = expr(a, wtns, false);
            let right = expr(b, wtns, false);
            parens(append(append(left, " + "), right.as_str()), add_parens_sum)
        },
        Expression::Product(a, b) => {
            let left = expr(a, wtns, true);
            let right = expr(b, wtns, true);
            append(append(left, " * "), right.as_str())
        },
        Expression::ScaledSum(x, a, b) => {
            let coefficient = expr(a, wtns, true);
            let column = expr(x, wtns, true);
            let offset = expr(b, wtns, false);
            let product = append(append(coefficient, " * "), column.as_str());
            parens(append(append(product, " + "), offset.as_str()), add_parens_sum)
        },
    }
}

impl Expression {
    /// The text of the expression.
    pub fn to_text(&self) -> (r: String)
        ensures
            r@ == expr_text(*self, false),
    {
        let mut wtns: Vec<WitnessId> = Vec::new();
        expr(self, &mut wtns, false)
    }
}

/// The text of an element of the extension as a polynomial.
pub open spec fn polynomial_text(e: GoldilocksExt2) -> Seq<char> {
    let first = decimal_text(e.c0@ as nat);
    let second = if e.c1@ == 1 {
        "X"@
    } else {
        decimal_text(e.c1@ as nat) + " X"@
    };
    if e.c1@ == 0 {
        first
    } else if e.c0@ == 0 {
        second
    } else {
        first + " + "@ + second
    }
}

fn polynomial(e: &GoldilocksExt2) -> (r: String)
    ensures
        r@ == polynomial_text(*e),
{
    let c0: u64 = e.c0.as_canonical_u64();
    let c1: u64 = e.c1.as_canonical_u64();
    let first = decimal(c0);
    let second = if c1 == 1 {
        "X".to_owned()
    } else {
        append(decimal(c1), " X")
    };
    if c1 == 0 {
        first
    } else if c0 == 0 {
        second
    } else {
        append(append(first, " + "), second.as_str())
    }
}

/// The coordinates of an element of the extension in a list.
pub open spec fn coordinates_text(e: GoldilocksExt2) -> Seq<char> {
    "["@ + decimal_text(e.c0@ as nat) + ", "@ + decimal_text(e.c1@ as nat) + "]"@
}

fn coordinates(e: &GoldilocksExt2) -> (r: String)
    ensures
        r@ == coordinates_text(*e),
{
    let first = append("[".to_owned(), decimal(e.c0.as_canonical_u64()).as_str());
    let both = append(append(first, ", "), decimal(e.c1.as_canonical_u64()).as_str());
    append(both, "]")
}

/// The short text of an expression for debugging.
pub open spec fn debug_text(e: Expression) -> Seq<char> {
    match e {
        Expression::WitIn(id) => "W["@ + decimal_text(id as nat) + "]"@,
        Expression::StructuralWitIn(id, _, _, _) => "S["@ + decimal_text(id as nat) + "]"@,
        Expression::Fixed(f) => "F["@ + decimal_text(f.0 as nat) + "]"@,
        Expression::Instance(i) => "I["@ + decimal_text(i.0 as nat) + "]"@,
        Expression::Constant(c) => "C["@ + (match c {
            Either::Left(b) => decimal_text(b@ as nat),
            Either::Right(x) => polynomial_text(x),
        }) + "]"@,
        Expression::Sum(a, b) => "("@ + expr_text(*a, false) + " + "@ + expr_text(*b, false) + ")"@,
        Expression::Product(a, b) => "("@ + expr_text(*a, false) + " * "@ + expr_text(*b, false)
            + ")"@,
        Expression::ScaledSum(x, a, b) => expr_text(*x, false) + " * "@ + expr_text(*a, false)
            + " + "@ + expr_text(*b, false),
        Expression::Challenge(id, pow, scalar, offset) => "C("@ + decimal_text(id as nat) + ")^"@
            + decimal_text(pow as nat) + " * "@ + coordinates_text(scalar) + " + "@
            + coordinates_text(offset),
    }
}

/// The short text of an expression for debugging.
pub fn debug(e: &Expression) -> (r: String)
    ensures
        r@ == debug_text(*e),
{
    match e {
        Expression::WitIn(id) => append(
            append("W[".to_owned(), decimal(*id as u64).as_str()),
            "]",
        ),
        Expression::StructuralWitIn(id, _, _, _) => append(
            append("S[".to_owned(), decimal(*id as u64).as_str()),
            "]",
        ),
        Expression::Fixed(f) => append(append("F[".to_owned(), decimal(f.0 as u64).as_str()), "]"),
        Expression::Instance(i) => append(
            append("I[".to_owned(), decimal(i.0 as u64).as_str()),
            "]",
        ),
        Expression::Constant(c) => {
            let text = match c {
                Either::Left(b) => decimal(b.as_canonical_u64()),
                Either::Right(x) => polynomial(x),
            };
            append(append("C[".to_owned(), text.as_str()), "]")
        },
        Expression::Sum(a, b) => {
            let left = append("(".to_owned(), a.to_text().as_str());
            append(append(append(left, " + "), b.to_text().as_str()), ")")
        },
        Expression::Product(a, b) => {
            let left = append("(".to_owned(), a.to_text().as_str());
            append(append(append(left, " * "), b.to_text().as_str()), ")")
        },
        Expression::ScaledSum(x, a, b) => {
            let product = append(append(x.to_text(), " * "), a.to_text().as_str());
            append(append(product, " + "), b.to_text().as_str())
        },
        Expression::Challenge(id, pow, scalar, offset) => {
            let name = append(append("C(".to_owned(), decimal(*id as u64).as_str()), ")^");
            let power = append(append(name, decimal(*pow as u64).as_str()), " * ");
            append(append(append(power, coordinates(scalar).as_str()), " + "), coordinates(
                offset,
            ).as_str())
        },
    }
}

/// What the `Debug` impl of `str` writes.
pub uninterp spec fn quoted(s: Seq<char>) -> Seq<char>;

/// Text in quotes with escapes, written by the `Debug` impl of `str`; which characters are escaped
/// is not stated.
#[verifier::external_body]
fn quote(s: &str) -> (r: String)
    ensures
        r@ == quoted(s@),
{
    format!("{s:?}")
}

/// The text of the value of a witness in a row.
pub open spec fn value_text(m: MultilinearExtension, row: int) -> Seq<char> {
    match m.evaluations {
        FieldType::Base(s) => base_field_text(s@[row]@, true),
        FieldType::Ext(s) => field_text(s@[row]),
        FieldType::Unreachable => Seq::empty(),
    }
}

/// The line of a witness with its value and its quoted name.
pub open spec fn line_text(id: int, value: Seq<char>, quoted_name: Seq<char>) -> Seq<char> {
    "  WitIn("@ + decimal_text(id as nat) + ")="@ + value + " "@ + quoted_name
}

/// The line of a witness with its value and its quoted name.
pub fn line(id: WitnessId, value: &str, quoted_name: &str) -> (r: String)
    ensures
        r@ == line_text(id as int, value@, quoted_name@),
{
    let name = append(append("  WitIn(".to_owned(), decimal(id as u64).as_str()), ")=");
    append(append(append(name, value), " "), quoted_name)
}

/// The lines of witnesses.
pub open spec fn wtns_text(
    ids: Seq<WitnessId>,
    wits_in: Seq<MultilinearExtension>,
    inst_id: int,
    names: Seq<String>,
) -> Seq<char>
    decreases ids.len(),
{
    if ids.len() == 0 {
        Seq::empty()
    } else {
        let id = ids.last() as int;
        let last = line_text(id, value_text(wits_in[id], inst_id), quoted(names[id]@));
        if ids.len() == 1 {
            last
        } else {
            wtns_text(ids.drop_last(), wits_in, inst_id, names) + "\n"@ + last
        }
    }
}

/// In ascending order.
pub open spec fn ascending(ids: Seq<WitnessId>) -> bool {
    forall|i: int, j: int| 0 <= i <= j < ids.len() ==> ids[i] <= ids[j]
}

/// The identities in ascending order.
pub fn sorted_ids(ids: &[WitnessId]) -> (r: Vec<WitnessId>)
    ensures
        ascending(r@),
        r@.to_multiset() == ids@.to_multiset(),
{
    broadcast use vstd::seq_lib::group_to_multiset_ensures;

    let mut r: Vec<WitnessId> = Vec::with_capacity(ids.len());
    let mut i: usize = 0;
    assert(ids@.take(0) =~= Seq::<WitnessId>::empty());
    while i < ids.len()
        invariant
            i <= ids@.len(),
            ascending(r@),
            r@.len() == i,
            r@.to_multiset() == ids@.take(i as int).to_multiset(),
        decreases ids@.len() - i,
    {
        let id: WitnessId = ids[i];
        let mut k: usize = 0;
        while k < r.len() && r[k] <= id
            invariant
                k <= r@.len(),
                forall|j: int| 0 <= j < k ==> #[trigger] r@[j] <= id,
            decreases r@.len() - k,
        {
            k = k + 1;
        }
        let ghost before = r@;
        r.insert(k, id);
        proof {
            assert(r@ == before.insert(k as int, id));
            lemma_insert_ascending(before, k as int, id);
            vstd::seq_lib::to_multiset_insert(before, k as int, id);
            assert(ids@.take(i + 1) =~= ids@.take(i as int).push(id));
            vstd::seq_lib::to_multiset_build(ids@.take(i as int), id);
        }
        i = i + 1;
    }
    assert(ids@.take(i as int) =~= ids@);
    r
}

proof fn lemma_insert_ascending(s: Seq<WitnessId>, k: int, id: WitnessId)
    requires
        ascending(s),
        0 <= k <= s.len(),
        forall|j: int| 0 <= j < k ==> #[trigger] s[j] <= id,
        k < s.len() ==> s[k] > id,
    ensures
        ascending(s.insert(k, id)),
{
    let t = s.insert(k, id);
    assert forall|i: int, j: int| 0 <= i <= j < t.len() implies t[i] <= t[j] by {
        if j > k {
            assert(t[j] == s[j - 1]);
            assert(s[k] <= s[j - 1]);
        }
        if i > k {
            assert(t[i] == s[i - 1]);
        }
        if i < k {
            assert(t[i] == s[i]);
        }
    }
}

/// The values of witnesses in a row, one line for each in ascending order.
pub fn wtns(
    wtn_ids: &[WitnessId],
    wits_in: &[MultilinearExtension],
    inst_id: usize,
    wits_in_name: &[String],
) -> (r: String)
    requires
        forall|i: int|
            0 <= i < wtn_ids@.len() ==> (#[trigger] wtn_ids@[i]) < wits_in@.len() && wtn_ids@[i]
                < wits_in_name@.len() && !(wits_in@[wtn_ids@[i] as int].evaluations is Unreachable)
                && inst_id < wits_in@[wtn_ids@[i] as int]@.len(),
    ensures
        exists|ids: Seq<WitnessId>|
            ascending(ids) && ids.to_multiset() == wtn_ids@.to_multiset() && r@ == #[trigger] wtns_text(
                ids,
                wits_in@,
                inst_id as int,
                wits_in_name@,
            ),
{
    let ids = sorted_ids(wtn_ids);
    let mut r = "".to_owned();
    let mut i: usize = 0;
    proof {
        reveal_strlit("");
        assert(r@ =~= wtns_text(ids@.take(0), wits_in@, inst_id as int, wits_in_name@));
    }
    while i < ids.len()
        invariant
            i <= ids@.len(),
            ids@.to_multiset() == wtn_ids@.to_multiset(),
            forall|i: int|
                0 <= i < wtn_ids@.len() ==> (#[trigger] wtn_ids@[i]) < wits_in@.len() && wtn_ids@[i]
                    < wits_in_name@.len() && !(wits_in@[wtn_ids@[i] as int].evaluations
                    is Unreachable) && inst_id < wits_in@[wtn_ids@[i] as int]@.len(),
            r@ == wtns_text(ids@.take(i as int), wits_in@, inst_id as int, wits_in_name@),
        decreases ids@.len() - i,
    {
        let id: WitnessId = ids[i];
        proof {
            broadcast use vstd::seq_lib::group_to_multiset_ensures;

            assert(ids@.contains(id));
            assert(ids@.to_multiset().contains(id));
            assert(wtn_ids@.contains(id));
            let k = choose|k: int| 0 <= k < wtn_ids@.len() && wtn_ids@[k] == id;
            assert(wtn_ids@[k] < wits_in@.len());
        }
        let value = witness_value(&wits_in[id as usize], inst_id);
        let name = quote(wits_in_name[id as usize].as_str());
        let text = line(id, value.as_str(), name.as_str());
        if i == 0 {
            r = text;
        } else {
            r = append(append(r, "\n"), text.as_str());
        }
        assert(ids@.take(i + 1).drop_last() =~= ids@.take(i as int));
        i = i + 1;
    }
    assert(ids@.take(i as int) =~= ids@);
    r
}

fn witness_value(m: &MultilinearExtension, row: usize) -> (r: String)
    requires
        !(m.evaluations is Unreachable),
        row < m@.len(),
    ensures
        r@ == value_text(*m, row as int),
{
    match &m.evaluations {
        FieldType::Base(s) => base_field(&s.as_slice()[row], true),
        FieldType::Ext(s) => field(&s.as_slice()[row]),
        FieldType::Unreachable => "".to_owned(),
    }
}

} // verus!
