//! Character-level utilities: turning strings into character vectors,
//! splitting on separators, filtering, and rebuilding strings.
//!
//! All specifications are stated over `Seq<char>`, the view of both
//! `String` and `Vec<char>`.

use vstd::prelude::*;
use vstd::std_specs::iter::IteratorSpec;
use vstd::string::StrSliceExecFns;
use vstd::string::StringExecFns;

verus! {

/// The characters of a string slice, in order.
pub fn chars_of(s: &str) -> (v: Vec<char>)
    ensures
        v@ == s@,
{
    broadcast use vstd::string::group_string_axioms;

    let mut it = s.chars();
    let mut v: Vec<char> = Vec::new();
    loop
        invariant
            it.obeys_prophetic_iter_laws(),
            it.decrease() is Some,
            v@ + it.remaining() == s@,
        ensures
            v@ == s@,
        decreases it.decrease()->0,
    {
        let ghost pre = it.remaining();
        match it.next() {
            Some(c) => {
                v.push(c);
                proof {
                    assert(v@ + it.remaining() =~= s@);
                }
            },
            None => {
                proof {
                    assert(pre.len() == 0);
                    assert(v@ =~= s@);
                }
                break ;
            },
        }
    }
    v
}

/// Splitting a character sequence on a separator, in the usual sense:
/// the result always has one more element than the number of separator
/// occurrences, and empty pieces are kept.
pub open spec fn split_seq(s: Seq<char>, sep: char) -> Seq<Seq<char>>
    decreases s.len(),
{
    if s.len() == 0 {
        seq![Seq::<char>::empty()]
    } else if s[0] == sep {
        seq![Seq::<char>::empty()] + split_seq(s.drop_first(), sep)
    } else {
        let rest = split_seq(s.drop_first(), sep);
        seq![seq![s[0]] + rest[0]] + rest.drop_first()
    }
}

pub proof fn lemma_split_seq_len(s: Seq<char>, sep: char)
    ensures
        split_seq(s, sep).len() >= 1,
    decreases s.len(),
{
    if s.len() == 0 {
    } else {
        lemma_split_seq_len(s.drop_first(), sep);
    }
}

/// Splits a character vector on a separator.
pub fn split_chars(s: &Vec<char>, sep: char) -> (parts: Vec<Vec<char>>)
    ensures
        parts@.map_values(|p: Vec<char>| p@) == split_seq(s@, sep),
{
    let mut acc: Vec<Vec<char>> = Vec::new();
    let mut cur: Vec<char> = Vec::new();
    let mut i: usize = 0;
    proof {
        assert(s@.skip(0) =~= s@);
        lemma_split_seq_len(s@, sep);
        assert(acc@.map_values(|p: Vec<char>| p@) + seq![cur@ + split_seq(s@.skip(0), sep)[0]]
            + split_seq(s@.skip(0), sep).drop_first() =~= split_seq(s@, sep));
    }
    while i < s.len()
        invariant
            0 <= i <= s@.len(),
            split_seq(s@, sep) == acc@.map_values(|p: Vec<char>| p@) + seq![cur@ + split_seq(
                s@.skip(i as int),
                sep,
            )[0]] + split_seq(s@.skip(i as int), sep).drop_first(),
        decreases s@.len() - i,
    {
        let c = s[i];
        proof {
            assert(s@.skip(i as int).len() > 0);
            assert(s@.skip(i as int)[0] == s@[i as int]);
            assert(s@.skip(i as int).drop_first() =~= s@.skip(i as int + 1));
            lemma_split_seq_len(s@.skip(i as int + 1), sep);
        }
        let ghost x_old = split_seq(s@.skip(i as int), sep);
        let ghost x_new = split_seq(s@.skip(i as int + 1), sep);
        if c == sep {
            proof {
                assert(x_old =~= seq![Seq::<char>::empty()] + x_new);
            }
            let ghost acc_pre = acc@;
            let ghost cur_pre = cur@;
            acc.push(cur);
            cur = Vec::new();
            proof {
                assert(acc@.map_values(|p: Vec<char>| p@) =~= acc_pre.map_values(
                    |p: Vec<char>| p@,
                ).push(cur_pre));
                assert(cur_pre + x_old[0] =~= cur_pre);
                assert(cur@ + x_new[0] =~= x_new[0]);
                assert(acc_pre.map_values(|p: Vec<char>| p@) + seq![cur_pre + x_old[0]]
                    + x_old.drop_first() =~= acc@.map_values(|p: Vec<char>| p@) + seq![cur@
                    + x_new[0]] + x_new.drop_first());
            }
        } else {
            proof {
                assert(x_old =~= seq![seq![s@[i as int]] + x_new[0]] + x_new.drop_first());
            }
            let ghost cur_pre = cur@;
            cur.push(c);
            proof {
                assert(cur@ =~= cur_pre.push(c));
                assert(cur_pre + x_old[0] =~= cur@ + x_new[0]);
                assert(acc@.map_values(|p: Vec<char>| p@) + seq![cur_pre + x_old[0]]
                    + x_old.drop_first() =~= acc@.map_values(|p: Vec<char>| p@) + seq![cur@
                    + x_new[0]] + x_new.drop_first());
            }
        }
        i = i + 1;
    }
    proof {
        assert(s@.skip(s@.len() as int) =~= Seq::<char>::empty());
        assert(split_seq(s@.skip(s@.len() as int), sep) =~= seq![Seq::<char>::empty()]);
    }
    let ghost acc_pre = acc@;
    let ghost cur_pre = cur@;
    acc.push(cur);
    proof {
        assert(cur_pre + Seq::<char>::empty() =~= cur_pre);
        assert(acc@.map_values(|p: Vec<char>| p@) =~= acc_pre.map_values(|p: Vec<char>| p@).push(
            cur_pre,
        ));
        assert(acc@.map_values(|p: Vec<char>| p@) =~= split_seq(s@, sep));
    }
    acc
}

/// Characters that survive sanitisation of an incoming name field.
/// Commas and angle brackets are stripped as a defence against record
/// injection into the CSV and XML outputs.
pub open spec fn keep_name_char(c: char) -> bool {
    c != ',' && c != '<' && c != '>'
}

/// A name field with the dangerous characters removed.
pub open spec fn sanitized(s: Seq<char>) -> Seq<char> {
    s.filter(|c: char| keep_name_char(c))
}

/// Removes commas and angle brackets from a character vector.
pub fn sanitize(s: &Vec<char>) -> (r: Vec<char>)
    ensures
        r@ == sanitized(s@),
{
    let mut out: Vec<char> = Vec::new();
    let mut i: usize = 0;
    proof {
        assert(s@.take(0) =~= Seq::<char>::empty());
        assert(out@ =~= sanitized(s@.take(0)));
    }
    while i < s.len()
        invariant
            0 <= i <= s@.len(),
            out@ == sanitized(s@.take(i as int)),
        decreases s@.len() - i,
    {
        let c = s[i];
        proof {
            assert(s@.take(i as int + 1).drop_last() =~= s@.take(i as int));
            assert(s@.take(i as int + 1).last() == s@[i as int]);
            reveal(Seq::filter);
        }
        if c != ',' && c != '<' && c != '>' {
            out.push(c);
        }
        proof {
            assert(out@ =~= sanitized(s@.take(i as int + 1)));
        }
        i = i + 1;
    }
    proof {
        assert(s@.take(s@.len() as int) =~= s@);
    }
    out
}

/// Compares a character vector against a string slice.
pub fn str_eq_chars(v: &Vec<char>, s: &str) -> (r: bool)
    ensures
        r == (v@ == s@),
{
    let n = s.unicode_len();
    if v.len() != n {
        return false;
    }
    let mut i: usize = 0;
    while i < n
        invariant
            0 <= i <= n,
            n == s@.len(),
            v@.len() == n,
            forall|j: int| 0 <= j < i ==> v@[j] == s@[j],
        decreases n - i,
    {
        if v[i] != s.get_char(i) {
            return false;
        }
        i = i + 1;
    }
    proof {
        assert(v@ =~= s@);
    }
    true
}

/// Appends one hexadecimal-digit character to a string.
pub fn push_hex_char(out: &mut String, c: char)
    requires
        crate::hex::is_hex_digit(c),
    ensures
        final(out)@ == old(out)@ + seq![c],
{
    broadcast use vstd::string::group_string_axioms;

    match c {
        '0' => {
            proof {
                reveal_strlit("0");
                assert("0"@ =~= seq!['0']);
            }
            out.append("0");
        },
        '1' => {
            proof {
                reveal_strlit("1");
                assert("1"@ =~= seq!['1']);
            }
            out.append("1");
        },
        '2' => {
            proof {
                reveal_strlit("2");
                assert("2"@ =~= seq!['2']);
            }
            out.append("2");
        },
        '3' => {
            proof {
                reveal_strlit("3");
                assert("3"@ =~= seq!['3']);
            }
            out.append("3");
        },
        '4' => {
            proof {
                reveal_strlit("4");
                assert("4"@ =~= seq!['4']);
            }
            out.append("4");
        },
        '5' => {
            proof {
                reveal_strlit("5");
                assert("5"@ =~= seq!['5']);
            }
            out.append("5");
        },
        '6' => {
            proof {
                reveal_strlit("6");
                assert("6"@ =~= seq!['6']);
            }
            out.append("6");
        },
        '7' => {
            proof {
                reveal_strlit("7");
                assert("7"@ =~= seq!['7']);
            }
            out.append("7");
        },
        '8' => {
            proof {
                reveal_strlit("8");
                assert("8"@ =~= seq!['8']);
            }
            out.append("8");
        },
        '9' => {
            proof {
                reveal_strlit("9");
                assert("9"@ =~= seq!['9']);
            }
            out.append("9");
        },
        'a' => {
            proof {
                reveal_strlit("a");
                assert("a"@ =~= seq!['a']);
            }
            out.append("a");
        },
        'b' => {
            proof {
                reveal_strlit("b");
                assert("b"@ =~= seq!['b']);
            }
            out.append("b");
        },
        'c' => {
            proof {
                reveal_strlit("c");
                assert("c"@ =~= seq!['c']);
            }
            out.append("c");
        },
        'd' => {
            proof {
                reveal_strlit("d");
                assert("d"@ =~= seq!['d']);
            }
            out.append("d");
        },
        'e' => {
            proof {
                reveal_strlit("e");
                assert("e"@ =~= seq!['e']);
            }
            out.append("e");
        },
        'f' => {
            proof {
                reveal_strlit("f");
                assert("f"@ =~= seq!['f']);
            }
            out.append("f");
        },
        'A' => {
            proof {
                reveal_strlit("A");
                assert("A"@ =~= seq!['A']);
            }
            out.append("A");
        },
        'B' => {
            proof {
                reveal_strlit("B");
                assert("B"@ =~= seq!['B']);
            }
            out.append("B");
        },
        'C' => {
            proof {
                reveal_strlit("C");
                assert("C"@ =~= seq!['C']);
            }
            out.append("C");
        },
        'D' => {
            proof {
                reveal_strlit("D");
                assert("D"@ =~= seq!['D']);
            }
            out.append("D");
        },
        'E' => {
            proof {
                reveal_strlit("E");
                assert("E"@ =~= seq!['E']);
            }
            out.append("E");
        },
        'F' => {
            proof {
                reveal_strlit("F");
                assert("F"@ =~= seq!['F']);
            }
            out.append("F");
        },
        _ => {
            proof {
                assert(false);
            }
        },
    }
}

/// Builds a string from a vector of hexadecimal-digit characters.
pub fn string_of_hex_chars(v: &Vec<char>) -> (r: String)
    requires
        forall|i: int| 0 <= i < v@.len() ==> crate::hex::is_hex_digit(#[trigger] v@[i]),
    ensures
        r@ == v@,
{
    let mut out = String::new();
    let mut i: usize = 0;
    while i < v.len()
        invariant
            0 <= i <= v@.len(),
            out@ == v@.take(i as int),
            forall|j: int| 0 <= j < v@.len() ==> crate::hex::is_hex_digit(#[trigger] v@[j]),
        decreases v@.len() - i,
    {
        push_hex_char(&mut out, v[i]);
        proof {
            assert(out@ =~= v@.take(i as int + 1));
        }
        i = i + 1;
    }
    proof {
        assert(v@.take(v@.len() as int) =~= v@);
    }
    out
}

/// A line with a trailing carriage return removed.
pub open spec fn strip_cr(l: Seq<char>) -> Seq<char> {
    if l.len() > 0 && l[l.len() - 1] == '\r' {
        l.drop_last()
    } else {
        l
    }
}

/// The logical lines of a text: pieces between newline characters, with a
/// final empty piece dropped (so a trailing newline does not produce an
/// extra line) and a trailing carriage return stripped from each line.
pub open spec fn lines_spec(s: Seq<char>) -> Seq<Seq<char>> {
    let parts = split_seq(s, '\n');
    let trimmed = if parts.last().len() == 0 {
        parts.drop_last()
    } else {
        parts
    };
    trimmed.map_values(|l: Seq<char>| strip_cr(l))
}

fn copy_strip_cr(p: &Vec<char>) -> (r: Vec<char>)
    ensures
        r@ == strip_cr(p@),
{
    let mut out: Vec<char> = Vec::new();
    let n = if p.len() > 0 && p[p.len() - 1] == '\r' {
        p.len() - 1
    } else {
        p.len()
    };
    let mut i: usize = 0;
    while i < n
        invariant
            0 <= i <= n,
            n <= p@.len(),
            out@ == p@.take(i as int),
        decreases n - i,
    {
        out.push(p[i]);
        proof {
            assert(out@ =~= p@.take(i as int + 1));
        }
        i = i + 1;
    }
    proof {
        assert(p@.take(p@.len() as int) =~= p@);
        if p@.len() > 0 && p@[p@.len() - 1] == '\r' {
            assert(p@.take(p@.len() - 1) =~= p@.drop_last());
        }
    }
    out
}

/// Splits a string into its logical lines.
pub fn split_lines(s: &String) -> (r: Vec<Vec<char>>)
    ensures
        r@.map_values(|p: Vec<char>| p@) == lines_spec(s@),
{
    let v = chars_of(s.as_str());
    let mut parts = split_chars(&v, '\n');
    proof {
        lemma_split_seq_len(s@, '\n');
    }
    if parts[parts.len() - 1].len() == 0 {
        let ghost pre = parts@;
        parts.pop();
        proof {
            assert(parts@.map_values(|p: Vec<char>| p@) =~= pre.map_values(
                |p: Vec<char>| p@,
            ).drop_last());
        }
    }
    let ghost trimmed = parts@.map_values(|p: Vec<char>| p@);
    let mut out: Vec<Vec<char>> = Vec::new();
    let mut i: usize = 0;
    while i < parts.len()
        invariant
            0 <= i <= parts@.len(),
            trimmed == parts@.map_values(|p: Vec<char>| p@),
            out@.map_values(|p: Vec<char>| p@) == trimmed.take(i as int).map_values(
                |l: Seq<char>| strip_cr(l),
            ),
        decreases parts@.len() - i,
    {
        let stripped = copy_strip_cr(&parts[i]);
        let ghost out_pre = out@;
        out.push(stripped);
        proof {
            assert(trimmed[i as int] == parts@[i as int]@);
            assert(stripped@ == strip_cr(trimmed[i as int]));
            assert(out@.map_values(|p: Vec<char>| p@) =~= out_pre.map_values(
                |p: Vec<char>| p@,
            ).push(stripped@));
            assert(out@.map_values(|p: Vec<char>| p@) =~= trimmed.take(i as int + 1).map_values(
                |l: Seq<char>| strip_cr(l),
            ));
        }
        i = i + 1;
    }
    proof {
        assert(trimmed.take(trimmed.len() as int) =~= trimmed);
        assert(out@.map_values(|p: Vec<char>| p@) =~= lines_spec(s@));
    }
    out
}


/// A sequence without the separator splits into just itself.
pub proof fn lemma_split_no_sep(s: Seq<char>, sep: char)
    requires
        forall|i: int| 0 <= i < s.len() ==> #[trigger] s[i] != sep,
    ensures
        split_seq(s, sep) == seq![s],
    decreases s.len(),
{
    if s.len() == 0 {
        assert(split_seq(s, sep) =~~= seq![s]);
    } else {
        lemma_split_no_sep(s.drop_first(), sep);
        let rest = split_seq(s.drop_first(), sep);
        assert(rest == seq![s.drop_first()]);
        assert(seq![s[0]] + rest[0] =~= s);
        assert(split_seq(s, sep) =~~= seq![s]);
    }
}

/// Splitting starts over after a separator: a separator-free prefix
/// becomes the first piece.
pub proof fn lemma_split_prepend_no_sep(a: Seq<char>, r: Seq<char>, sep: char)
    requires
        forall|i: int| 0 <= i < a.len() ==> #[trigger] a[i] != sep,
    ensures
        split_seq(a + seq![sep] + r, sep) == seq![a] + split_seq(r, sep),
    decreases a.len(),
{
    let s = a + seq![sep] + r;
    if a.len() == 0 {
        assert(s[0] == sep);
        assert(s.drop_first() =~= r);
        assert(split_seq(s, sep) =~~= seq![a] + split_seq(r, sep));
    } else {
        assert(s[0] == a[0]);
        assert(s[0] != sep);
        assert(s.drop_first() =~= a.drop_first() + seq![sep] + r);
        lemma_split_prepend_no_sep(a.drop_first(), r, sep);
        let x = split_seq(s.drop_first(), sep);
        lemma_split_seq_len(r, sep);
        assert(x == seq![a.drop_first()] + split_seq(r, sep));
        assert(x[0] == a.drop_first());
        assert(seq![s[0]] + x[0] =~= a);
        assert(x.drop_first() =~= split_seq(r, sep));
        assert(split_seq(s, sep) =~~= seq![a] + split_seq(r, sep));
    }
}

} // verus!
