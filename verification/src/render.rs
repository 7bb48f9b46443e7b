//! Textual rendering for diagnostics: decimal keys, and the list rendered as
//! `{(k1: v1),(k2: v2)}`.
use vstd::prelude::*;
use vstd::string::StringExecFns;

use crate::gen_level::LevelGenerator;
use crate::list::SkipList;

verus! {

/// The decimal digit character for `d`.
pub open spec fn dec_digit(d: nat) -> char {
    if d == 0 {
        '0'
    } else if d == 1 {
        '1'
    } else if d == 2 {
        '2'
    } else if d == 3 {
        '3'
    } else if d == 4 {
        '4'
    } else if d == 5 {
        '5'
    } else if d == 6 {
        '6'
    } else if d == 7 {
        '7'
    } else if d == 8 {
        '8'
    } else {
        '9'
    }
}

/// The decimal rendering of `n`, most significant digit first.
pub open spec fn dec_str(n: nat) -> Seq<char>
    decreases n,
{
    if n < 10 {
        seq![dec_digit(n)]
    } else {
        dec_str(n / 10).push(dec_digit(n % 10))
    }
}

/// Append the decimal digit `d` to `out`.
fn append_digit(out: &mut String, d: u64)
    requires
        d < 10,
    ensures
        final(out)@ == old(out)@ + seq![dec_digit(d as nat)],
{
    if d == 0 {
        proof {
            reveal_strlit("0");
        }
        out.append("0");
    } else if d == 1 {
        proof {
            reveal_strlit("1");
        }
        out.append("1");
    } else if d == 2 {
        proof {
            reveal_strlit("2");
        }
        out.append("2");
    } else if d == 3 {
        proof {
            reveal_strlit("3");
        }
        out.append("3");
    } else if d == 4 {
        proof {
            reveal_strlit("4");
        }
        out.append("4");
    } else if d == 5 {
        proof {
            reveal_strlit("5");
        }
        out.append("5");
    } else if d == 6 {
        proof {
            reveal_strlit("6");
        }
        out.append("6");
    } else if d == 7 {
        proof {
            reveal_strlit("7");
        }
        out.append("7");
    } else if d == 8 {
        proof {
            reveal_strlit("8");
        }
        out.append("8");
    } else {
        proof {
            reveal_strlit("9");
        }
        out.append("9");
    }
    proof {
        assert(final(out)@ =~= old(out)@ + seq![dec_digit(d as nat)]);
    }
}

/// Append the decimal rendering of `n` to `out`.
pub fn append_dec(out: &mut String, n: u64)
    ensures
        final(out)@ == old(out)@ + dec_str(n as nat),
    decreases n,
{
    if n >= 10 {
        append_dec(out, n / 10);
        append_digit(out, n % 10);
        proof {
            assert(final(out)@ =~= old(out)@ + dec_str(n as nat));
        }
    } else {
        append_digit(out, n);
    }
}

/// One entry rendered as `(key: value)`.
pub open spec fn rendered_entry(kv: (u64, &str)) -> Seq<char> {
    "("@ + dec_str(kv.0 as nat) + ": "@ + kv.1@ + ")"@
}

/// The first `i` entries rendered and joined with commas.
pub open spec fn rendered_upto(s: Seq<(u64, &str)>, i: int) -> Seq<char>
    decreases i,
{
    if i <= 0 {
        Seq::empty()
    } else if i == 1 {
        rendered_entry(s[0])
    } else {
        rendered_upto(s, i - 1) + ","@ + rendered_entry(s[i - 1])
    }
}

/// The whole list rendered as `{(k1: v1),(k2: v2)}`.
pub open spec fn rendered(s: Seq<(u64, &str)>) -> Seq<char> {
    "{"@ + rendered_upto(s, s.len() as int) + "}"@
}

impl<'a, G: LevelGenerator> SkipList<&'a str, G> {
    /// Render the live entries in ascending key order, for diagnostics.
    pub fn render(&self) -> (out: String)
        requires
            self.wf(),
        ensures
            out@ == rendered(self.entries()),
    {
        let ghost s = self.entries();
        let mut out = String::from_str("{");
        let mut it = self.iter();
        let mut n: usize = 0;
        loop
            invariant
                it.wf(),
                it.source() == self,
                self.wf(),
                s == self.entries(),
                0 <= it.done() <= s.len(),
                n as int == it.done(),
                out@ == "{"@ + rendered_upto(s, it.done()),
            ensures
                it.done() == s.len(),
                out@ == "{"@ + rendered_upto(s, s.len() as int),
            decreases s.len() - it.done(),
        {
            let ghost i = it.done();
            match it.next() {
                None => {
                    break ;
                },
                Some((k, v)) => {
                    if n > 0 {
                        out.append(",");
                    }
                    n += 1;
                    out.append("(");
                    append_dec(&mut out, *k);
                    out.append(": ");
                    out.append(v);
                    out.append(")");
                    proof {
                        assert(s[i].0 == *k && s[i].1 == *v);
                        assert(out@ =~= "{"@ + rendered_upto(s, i + 1));
                    }
                },
            }
        }
        out.append("}");
        proof {
            assert(out@ =~= rendered(s));
        }
        out
    }
}

} // verus!
