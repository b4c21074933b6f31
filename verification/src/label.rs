//! The generated display label of a pruning placeholder.

use vstd::prelude::*;
use vstd::string::StringExecFns;

verus! {

/// The character of a single decimal digit.
pub open spec fn digit_char(d: nat) -> char {
    if d == 0 {
        '0'
    } else if d == 1 {
        '1'
    } else if d == 2 {
        '2'
    } else if d == 3 {
        '3'
    } else if d == 4 {
        '4'
    } else if d == 5 {
        '5'
    } else if d == 6 {
        '6'
    } else if d == 7 {
        '7'
    } else if d == 8 {
        '8'
    } else {
        '9'
    }
}

/// The decimal rendering of a number, most significant digit first.
pub open spec fn dec_str(n: nat) -> Seq<char>
    decreases n,
{
    if n < 10 {
        seq![digit_char(n)]
    } else {
        dec_str(n / 10).push(digit_char(n % 10))
    }
}

/// The label a pruning placeholder carries for `n` omitted entries.
pub open spec fn pruning_label_spec(n: nat) -> Seq<char> {
    "... "@ + dec_str(n) + " other files..."@
}

fn push_dec(s: &mut String, n: usize)
    ensures
        final(s)@ == old(s)@ + dec_str(n as nat),
    decreases n,
{
    if n >= 10 {
        assert(n / 10 < n);
        push_dec(s, n / 10);
    }
    let d = n % 10;
    let ds: &str = if d == 0 {
        "0"
    } else if d == 1 {
        "1"
    } else if d == 2 {
        "2"
    } else if d == 3 {
        "3"
    } else if d == 4 {
        "4"
    } else if d == 5 {
        "5"
    } else if d == 6 {
        "6"
    } else if d == 7 {
        "7"
    } else if d == 8 {
        "8"
    } else {
        "9"
    };
    proof {
        reveal_strlit("0");
        reveal_strlit("1");
        reveal_strlit("2");
        reveal_strlit("3");
        reveal_strlit("4");
        reveal_strlit("5");
        reveal_strlit("6");
        reveal_strlit("7");
        reveal_strlit("8");
        reveal_strlit("9");
        assert(ds@ =~= seq![digit_char((n % 10) as nat)]);
    }
    s.append(ds);
    proof {
        if n >= 10 {
            assert(old(s)@ + dec_str(n as nat) =~= (old(s)@ + dec_str(n as nat / 10)) + seq![
                digit_char((n % 10) as nat),
            ]);
        } else {
            assert(old(s)@ + dec_str(n as nat) =~= old(s)@ + seq![digit_char(n as nat)]);
        }
    }
}

/// Builds the label that replaces the last emitted child of a directory
/// whose listing was cut short, `n` counting the omitted entries and the
/// replaced child itself.
pub fn pruning_label(n: usize) -> (s: String)
    ensures
        s@ == pruning_label_spec(n as nat),
{
    let mut s = String::from_str("... ");
    push_dec(&mut s, n);
    s.append(" other files...");
    proof {
        assert(s@ =~= pruning_label_spec(n as nat));
    }
    s
}

} // verus!
