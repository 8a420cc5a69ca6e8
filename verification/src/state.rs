//! The checking session: one context and the counter that fresh names come
//! from.

use vstd::prelude::*;
use vstd::string::StringExecFns;
use crate::context::{wf, Context};
use crate::ctxmember::Member;
use crate::expr::EVar;

verus! {

/// The state of one checking session.
#[derive(Debug)]
pub struct CheckState {
    /// The typing context.
    pub ctx: Context,
    /// The number that the next fresh name is made from.
    #[allow(non_snake_case)]
    pub nextEVar: usize,
}

/// The mathematical model of a `CheckState`.
pub ghost struct State {
    pub ctx: Seq<Member>,
    pub next: nat,
}

/// The character that stands for the digit `d`.
pub open spec fn digit(d: nat) -> char
    recommends
        d < 10,
{
    if d == 0 {
        '0'
    } else if d == 1 {
        '1'
    } else if d == 2 {
        '2'
    } else if d == 3 {
        '3'
    } else if d == 4 {
        '4'
    } else if d == 5 {
        '5'
    } else if d == 6 {
        '6'
    } else if d == 7 {
        '7'
    } else if d == 8 {
        '8'
    } else {
        '9'
    }
}

/// The decimal numeral of `n`, without leading zeros.
pub open spec fn decimal(n: nat) -> Seq<char>
    decreases n,
{
    if n < 10 {
        seq![digit(n)]
    } else {
        decimal(n / 10).push(digit(n % 10))
    }
}

/// The fresh name number `n`: the letter `e` and the decimal numeral of `n`.
pub open spec fn fresh_name(n: nat) -> Seq<char> {
    seq!['e'] + decimal(n)
}

/// Different numbers have different decimal numerals.
pub proof fn lemma_decimal_injective(n: nat, m: nat)
    requires
        decimal(n) == decimal(m),
    ensures
        n == m,
    decreases n,
{
    if n < 10 {
        if m >= 10 {
            lemma_decimal_len(m / 10);
            assert(decimal(m).len() >= 2);
            assert(decimal(n).len() == 1);
        } else {
            assert(decimal(n)[0] == digit(n));
            assert(decimal(m)[0] == digit(m));
            assert(n == m);
        }
    } else {
        if m < 10 {
            lemma_decimal_len(n / 10);
            assert(decimal(n).len() >= 2);
            assert(decimal(m).len() == 1);
        } else {
            let a = decimal(n / 10);
            let b = decimal(m / 10);
            assert(a.push(digit(n % 10)).last() == digit(n % 10));
            assert(b.push(digit(m % 10)).last() == digit(m % 10));
            assert(a.push(digit(n % 10)).drop_last() =~= a);
            assert(b.push(digit(m % 10)).drop_last() =~= b);
            assert(a == b);
            lemma_decimal_injective(n / 10, m / 10);
            assert(n % 10 == m % 10);
            assert(n == m);
        }
    }
}

/// A decimal numeral has at least one digit.
pub proof fn lemma_decimal_len(n: nat)
    ensures
        decimal(n).len() >= 1,
    decreases n,
{
    if n >= 10 {
        lemma_decimal_len(n / 10);
    }
}

/// Different numbers give different fresh names.
pub proof fn lemma_fresh_name_injective(n: nat, m: nat)
    requires
        fresh_name(n) == fresh_name(m),
    ensures
        n == m,
{
    assert(fresh_name(n).skip(1) =~= decimal(n));
    assert(fresh_name(m).skip(1) =~= decimal(m));
    lemma_decimal_injective(n, m);
}

/// No entry of `ctx` declares a rigid variable, an existential variable or a
/// marker under a fresh name numbered `next` or higher.
pub open spec fn names_fresh(ctx: Seq<Member>, next: nat) -> bool {
    forall|i: int, k: nat|
        0 <= i < ctx.len() && k >= next ==> (#[trigger] ctx[i]).bound_name() != Some(
            #[trigger] fresh_name(k),
        )
}

impl State {
    /// The invariant of a session: the context is well formed, the names still
    /// to come from the counter are not in use, and the counter is a machine
    /// word.
    pub open spec fn wf(self) -> bool {
        &&& wf(self.ctx)
        &&& names_fresh(self.ctx, self.next)
        &&& self.next <= usize::MAX
    }
}

impl View for CheckState {
    type V = State;

    open spec fn view(&self) -> State {
        State { ctx: self.ctx@, next: self.nextEVar as nat }
    }
}

impl Clone for CheckState {
    fn clone(&self) -> (r: Self)
        ensures
            r@ == self@,
    {
        CheckState { ctx: self.ctx.clone(), nextEVar: self.nextEVar }
    }
}

/// The numeral of one digit.
fn digit_str(d: usize) -> (r: &'static str)
    requires
        d < 10,
    ensures
        r@ == seq![digit(d as nat)],
{
    proof {
        reveal_strlit("0");
        reveal_strlit("1");
        reveal_strlit("2");
        reveal_strlit("3");
        reveal_strlit("4");
        reveal_strlit("5");
        reveal_strlit("6");
        reveal_strlit("7");
        reveal_strlit("8");
        reveal_strlit("9");
    }
    let r = if d == 0 {
        "0"
    } else if d == 1 {
        "1"
    } else if d == 2 {
        "2"
    } else if d == 3 {
        "3"
    } else if d == 4 {
        "4"
    } else if d == 5 {
        "5"
    } else if d == 6 {
        "6"
    } else if d == 7 {
        "7"
    } else if d == 8 {
        "8"
    } else {
        "9"
    };
    assert(r@ =~= seq![digit(d as nat)]);
    r
}

/// The decimal numeral of `n`.
fn decimal_string(n: usize) -> (r: String)
    ensures
        r@ == decimal(n as nat),
    decreases n,
{
    if n < 10 {
        String::from_str(digit_str(n))
    } else {
        let mut r = decimal_string(n / 10);
        r.append(digit_str(n % 10));
        assert(r@ =~= decimal(n as nat));
        r
    }
}

/// The fresh name number `n`.
fn numbered_name(n: usize) -> (r: String)
    ensures
        r@ == fresh_name(n as nat),
{
    proof {
        reveal_strlit("e");
    }
    let mut r = String::from_str("e");
    let digits = decimal_string(n);
    r.append(digits.as_str());
    assert(r@ =~= fresh_name(n as nat));
    r
}

impl CheckState {
    /// A session with an empty context and the counter at zero.
    pub fn new() -> (r: Self)
        ensures
            r@ == (State { ctx: Seq::empty(), next: 0 }),
            r@.wf(),
    {
        let r = CheckState { ctx: Context(Vec::new()), nextEVar: 0 };
        assert(r@.ctx =~= Seq::empty());
        r
    }

    /// The next fresh name of the session. The counter moves on by one, so no
    /// later call gives the same name.
    pub fn fresh_evar(&mut self) -> (r: EVar)
        requires
            old(self).nextEVar < usize::MAX,
        ensures
            r@ == fresh_name(old(self).nextEVar as nat),
            final(self).nextEVar == old(self).nextEVar + 1,
            final(self).ctx == old(self).ctx,
    {
        let var = numbered_name(self.nextEVar);
        self.nextEVar = self.nextEVar + 1;
        var
    }
}

} // verus!
