//! Short, readable type names.
use vstd::prelude::*;
use vstd::string::StrSliceExecFns;

verus! {

/// The characters that separate the parts of a composite type name.
pub open spec fn is_delim(c: char) -> bool {
    c == '&' || c == '<' || c == '>' || c == '(' || c == ')' || c == '[' || c == ']' || c == ','
        || c == ';'
}

/// The first separator at or after `pos`, or the length if there is none.
pub open spec fn first_delim_from(s: Seq<char>, pos: int) -> int
    decreases s.len() - pos,
{
    if pos >= s.len() {
        s.len() as int
    } else if is_delim(s[pos]) {
        pos
    } else {
        first_delim_from(s, pos + 1)
    }
}

/// The last `':'` in `s[a..b]`, or `a - 1` if there is none.
pub open spec fn last_colon_in(s: Seq<char>, a: int, b: int) -> int
    decreases b - a,
{
    if b <= a {
        a - 1
    } else if s[b - 1] == ':' {
        b - 1
    } else {
        last_colon_in(s, a, b - 1)
    }
}

/// The last path component of `s[a..b]`: what follows its last `':'`.
pub open spec fn last_component(s: Seq<char>, a: int, b: int) -> Seq<char> {
    s.subrange(last_colon_in(s, a, b) + 1, b)
}

/// `s[pos..]` with every path shortened to its last component; a `,` or `;`
/// keeps the space that follows it.
pub open spec fn shorten_from(s: Seq<char>, pos: int) -> Seq<char>
    decreases s.len() - pos,
{
    if pos < 0 || pos >= s.len() {
        Seq::empty()
    } else {
        let i = first_delim_from(s, pos);
        if i >= s.len() {
            last_component(s, pos, s.len() as int)
        } else {
            let wide = s[i] == ',' || s[i] == ';';
            let next = if wide && i + 2 <= s.len() {
                i + 2
            } else {
                i + 1
            };
            let rest = if next > pos {
                shorten_from(s, next)
            } else {
                Seq::empty()
            };
            last_component(s, pos, i) + seq![s[i]] + (if wide {
                seq![' ']
            } else {
                Seq::empty()
            }) + rest
        }
    }
}

/// The characters of the closure suffix `::{{closure}}`.
pub open spec fn closure_suffix() -> Seq<char> {
    seq![':', ':', '{', '{', 'c', 'l', 'o', 's', 'u', 'r', 'e', '}', '}']
}

/// The short form of a type name; a closure's name keeps its suffix.
pub open spec fn short_type_name(s: Seq<char>) -> Seq<char>
    decreases s.len(),
{
    if s.len() >= 13 && s.subrange(s.len() - 13, s.len() as int) == closure_suffix() {
        short_type_name(s.subrange(0, s.len() - 13)) + closure_suffix()
    } else {
        shorten_from(s, 0)
    }
}

proof fn lemma_first_delim(s: Seq<char>, pos: int)
    requires
        0 <= pos <= s.len(),
    ensures
        pos <= first_delim_from(s, pos) <= s.len(),
        first_delim_from(s, pos) < s.len() ==> is_delim(s[first_delim_from(s, pos)]),
        forall|k: int| pos <= k < first_delim_from(s, pos) ==> !is_delim(#[trigger] s[k]),
    decreases s.len() - pos,
{
    if pos < s.len() && !is_delim(s[pos]) {
        lemma_first_delim(s, pos + 1);
    }
}

proof fn lemma_last_colon(s: Seq<char>, a: int, b: int)
    requires
        0 <= a <= b <= s.len(),
    ensures
        a - 1 <= last_colon_in(s, a, b) < b,
    decreases b - a,
{
    if b > a && s[b - 1] != ':' {
        lemma_last_colon(s, a, b - 1);
    }
}

/// The last path component of `name[a..b]`.
fn component<'a>(name: &'a str, a: usize, b: usize) -> (r: &'a str)
    requires
        a <= b <= name@.len(),
    ensures
        r@ == last_component(name@, a as int, b as int),
{
    let mut k = b;
    while k > a && name.get_char(k - 1) != ':'
        invariant
            a <= k <= b,
            b <= name@.len(),
            last_colon_in(name@, a as int, b as int) == last_colon_in(name@, a as int, k as int),
        decreases k - a,
    {
        k = k - 1;
    }
    proof {
        lemma_last_colon(name@, a as int, k as int);
    }
    name.substring_char(k, b)
}

/// A shorter form of a type name: each path is cut to its last component.
pub fn type_name_str(name: &str) -> (r: String)
    ensures
        r@ == short_type_name(name@),
    decreases name@.len(),
{
    let n = name.unicode_len();
    if n >= 13 {
        let tail = name.substring_char(n - 13, n);
        let mut same = true;
        let mut k: usize = 0;
        let suffix = "::{{closure}}";
        proof {
            reveal_strlit("::{{closure}}");
            assert(suffix@ =~= closure_suffix());
        }
        while k < 13
            invariant
                k <= 13,
                n == name@.len(),
                n >= 13,
                tail@ == name@.subrange(n - 13, n as int),
                suffix@ == closure_suffix(),
                same == (forall|j: int| 0 <= j < k ==> tail@[j] == closure_suffix()[j]),
            decreases 13 - k,
        {
            if tail.get_char(k) != suffix.get_char(k) {
                same = false;
            }
            k = k + 1;
        }
        if same {
            proof {
                assert(tail@ =~= closure_suffix());
            }
            let before = name.substring_char(0, n - 13);
            let mut r = type_name_str(before);
            r.append(suffix);
            return r;
        } else {
            proof {
                assert(name@.subrange(n - 13, n as int) != closure_suffix()) by {
                    let j = choose|j: int| 0 <= j < 13 && tail@[j] != closure_suffix()[j];
                    assert(tail@[j] != closure_suffix()[j]);
                }
            }
        }
    }
    let mut out = String::new();
    let mut pos: usize = 0;
    proof {
        assert(out@ =~= Seq::<char>::empty());
    }
    while pos < n
        invariant
            n == name@.len(),
            pos <= n,
            out@ + shorten_from(name@, pos as int) == shorten_from(name@, 0),
        decreases n - pos,
    {
        let mut i = pos;
        while i < n && !is_delim_char(name.get_char(i))
            invariant
                pos <= i <= n,
                n == name@.len(),
                first_delim_from(name@, pos as int) == first_delim_from(name@, i as int),
            decreases n - i,
        {
            i = i + 1;
        }
        proof {
            lemma_first_delim(name@, i as int);
        }
        let ghost before = out@;
        if i >= n {
            out.append(component(name, pos, n));
            proof {
                assert(shorten_from(name@, n as int) =~= Seq::<char>::empty());
                assert(out@ + shorten_from(name@, n as int) =~= before + shorten_from(
                    name@,
                    pos as int,
                ));
            }
            pos = n;
        } else {
            let c = name.get_char(i);
            out.append(component(name, pos, i));
            out.append(name.substring_char(i, i + 1));
            let wide = c == ',' || c == ';';
            let next = if wide && i + 1 < n {
                i + 2
            } else {
                i + 1
            };
            if wide {
                let space = " ";
                proof {
                    reveal_strlit(" ");
                }
                out.append(space);
            }
            proof {
                assert(name@.subrange(i as int, i + 1) =~= seq![c]);
                let mid = last_component(name@, pos as int, i as int) + seq![c] + (if wide {
                    seq![' ']
                } else {
                    Seq::empty()
                });
                assert(out@ =~= before + mid);
                assert(shorten_from(name@, pos as int) == mid + shorten_from(name@, next as int));
                assert(out@ + shorten_from(name@, next as int) =~= before + shorten_from(
                    name@,
                    pos as int,
                ));
            }
            pos = next;
        }
    }
    proof {
        assert(shorten_from(name@, pos as int) =~= Seq::<char>::empty());
        assert(out@ =~= shorten_from(name@, 0));
    }
    out
}

fn is_delim_char(c: char) -> (r: bool)
    ensures
        r == is_delim(c),
{
    c == '&' || c == '<' || c == '>' || c == '(' || c == ')' || c == '[' || c == ']' || c == ','
        || c == ';'
}

} // verus!
