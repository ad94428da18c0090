use vstd::prelude::*;

verus! {

/// Strict lexicographic order on character sequences, comparing scalar
/// values position by position; a proper prefix sorts before its extensions.
pub open spec fn lex_lt(a: Seq<char>, b: Seq<char>) -> bool
    decreases a.len(),
{
    if b.len() == 0 {
        false
    } else if a.len() == 0 {
        true
    } else if a[0] == b[0] {
        lex_lt(a.drop_first(), b.drop_first())
    } else {
        (a[0] as u32) < (b[0] as u32)
    }
}

/// No sequence sorts strictly before itself.
pub proof fn lemma_lex_irrefl(a: Seq<char>)
    ensures
        !lex_lt(a, a),
    decreases a.len(),
{
    if a.len() > 0 {
        lemma_lex_irrefl(a.drop_first());
    }
}

/// Two sequences, neither strictly before the other, are equal.
pub proof fn lemma_lex_connected(a: Seq<char>, b: Seq<char>)
    requires
        !lex_lt(a, b),
        !lex_lt(b, a),
    ensures
        a == b,
    decreases a.len(),
{
    if a.len() == 0 || b.len() == 0 {
        assert(a =~= b);
    } else if a[0] == b[0] {
        lemma_lex_connected(a.drop_first(), b.drop_first());
        assert(a =~= b) by {
            assert(a == seq![a[0]] + a.drop_first());
            assert(b == seq![b[0]] + b.drop_first());
        }
    } else {
        assert((a[0] as u32) < (b[0] as u32) || (b[0] as u32) < (a[0] as u32)) by {
            if a[0] as u32 == b[0] as u32 {
                vstd::utf8::char_u32_cast(a[0], a[0] as u32);
                vstd::utf8::char_u32_cast(b[0], b[0] as u32);
            }
        }
    }
}

/// The strict lexicographic order is transitive.
pub proof fn lemma_lex_trans(a: Seq<char>, b: Seq<char>, c: Seq<char>)
    requires
        lex_lt(a, b),
        lex_lt(b, c),
    ensures
        lex_lt(a, c),
    decreases a.len(),
{
    if a.len() == 0 {
    } else if b.len() == 0 {
    } else if c.len() == 0 {
    } else if a[0] == b[0] && b[0] == c[0] {
        lemma_lex_trans(a.drop_first(), b.drop_first(), c.drop_first());
    }
}

/// At most one of "strictly before" and "strictly after" holds.
pub proof fn lemma_lex_asym(a: Seq<char>, b: Seq<char>)
    requires
        lex_lt(a, b),
    ensures
        !lex_lt(b, a),
        a != b,
    decreases a.len(),
{
    lemma_lex_irrefl(a);
    if a.len() > 0 && b.len() > 0 && a[0] == b[0] {
        lemma_lex_asym(a.drop_first(), b.drop_first());
        assert(a != b) by {
            if a == b {
                assert(a.drop_first() == b.drop_first());
            }
        }
    }
}

/// Compares two strings in strict lexicographic order on their characters.
pub fn str_lt(a: &str, b: &str) -> (r: bool)
    ensures
        r == lex_lt(a@, b@),
{
    let a_len = a.unicode_len();
    let b_len = b.unicode_len();
    let mut i: usize = 0;
    proof {
        assert(a@.skip(0) =~= a@);
        assert(b@.skip(0) =~= b@);
    }
    loop
        invariant
            i <= a_len,
            i <= b_len,
            a_len == a@.len(),
            b_len == b@.len(),
            lex_lt(a@, b@) == lex_lt(a@.skip(i as int), b@.skip(i as int)),
        decreases a_len - i,
    {
        if i == a_len {
            proof {
                assert(a@.skip(i as int).len() == 0);
            }
            return i < b_len;
        }
        if i == b_len {
            proof {
                assert(b@.skip(i as int).len() == 0);
            }
            return false;
        }
        let ca = a.get_char(i);
        let cb = b.get_char(i);
        proof {
            assert(a@.skip(i as int)[0] == a@[i as int]);
            assert(b@.skip(i as int)[0] == b@[i as int]);
            assert(a@.skip(i as int).drop_first() =~= a@.skip(i + 1));
            assert(b@.skip(i as int).drop_first() =~= b@.skip(i + 1));
        }
        if ca as u32 == cb as u32 {
            proof {
                assert(ca == cb) by {
                    vstd::utf8::char_u32_cast(ca, ca as u32);
                    vstd::utf8::char_u32_cast(cb, cb as u32);
                }
            }
            i = i + 1;
        } else {
            return (ca as u32) < (cb as u32);
        }
    }
}

/// The segments of `s` split on `/`, in order, empty segments kept: the
/// result always holds one more segment than `s` holds separators.
pub open spec fn split_on(s: Seq<char>) -> Seq<Seq<char>>
    decreases s.len(),
{
    if s.len() == 0 {
        seq![Seq::<char>::empty()]
    } else {
        let rest = split_on(s.drop_last());
        if s.last() == '/' {
            rest + seq![Seq::<char>::empty()]
        } else {
            rest.update(rest.len() - 1, rest.last().push(s.last()))
        }
    }
}

/// A split always yields at least one segment.
pub proof fn lemma_split_on_len(s: Seq<char>)
    ensures
        split_on(s).len() >= 1,
    decreases s.len(),
{
    if s.len() > 0 {
        lemma_split_on_len(s.drop_last());
    }
}

/// Splits a path into its `/`-separated segments, in root-first order.
pub fn split_path(path: &String) -> (r: Vec<String>)
    ensures
        r@.map_values(|t: String| t@) == split_on(path@),
        r@.len() >= 1,
{
    let s = path.as_str();
    let len = s.unicode_len();
    let mut out: Vec<String> = Vec::new();
    let mut start: usize = 0;
    let mut i: usize = 0;
    proof {
        assert(s@.take(0) =~= Seq::<char>::empty());
        assert(s@.subrange(0, 0) =~= Seq::<char>::empty());
        assert(split_on(s@.take(0)) =~= out@.map_values(|t: String| t@) + seq![
            s@.subrange(0, 0),
        ]);
    }
    while i < len
        invariant
            start <= i <= len,
            len == s@.len(),
            split_on(s@.take(i as int)) == out@.map_values(|t: String| t@) + seq![
                s@.subrange(start as int, i as int),
            ],
        decreases len - i,
    {
        let c = s.get_char(i);
        proof {
            assert(s@.take(i + 1).drop_last() =~= s@.take(i as int));
            assert(s@.take(i + 1).last() == s@[i as int]);
        }
        if c == '/' {
            let piece = s.substring_char(start, i);
            let piece_string = String::from_str(piece);
            let ghost out0 = out@;
            out.push(piece_string);
            proof {
                let m = out@.map_values(|t: String| t@);
                assert(m =~= out0.map_values(|t: String| t@) + seq![piece@]);
                assert(s@.subrange(i + 1, i + 1) =~= Seq::<char>::empty());
                assert(split_on(s@.take(i + 1)) =~= m + seq![s@.subrange(i + 1, i + 1)]);
            }
            start = i + 1;
        } else {
            proof {
                let old_segs = out@.map_values(|t: String| t@) + seq![
                    s@.subrange(start as int, i as int),
                ];
                assert(old_segs.last() == s@.subrange(start as int, i as int));
                assert(old_segs.last().push(s@[i as int]) =~= s@.subrange(start as int, i + 1));
                assert(split_on(s@.take(i + 1)) =~= out@.map_values(|t: String| t@) + seq![
                    s@.subrange(start as int, i + 1),
                ]);
            }
        }
        i = i + 1;
    }
    let piece = s.substring_char(start, len);
    let piece_string = String::from_str(piece);
    let ghost out0 = out@;
    out.push(piece_string);
    proof {
        assert(s@.take(len as int) =~= s@);
        let m = out@.map_values(|t: String| t@);
        assert(m =~= out0.map_values(|t: String| t@) + seq![piece@]);
        assert(m =~= split_on(path@));
    }
    out
}

} // verus!
