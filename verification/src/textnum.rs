use vstd::prelude::*;

verus! {

pub open spec fn is_digit(b: u8) -> bool {
    48 <= b <= 57
}

/// The value of a string of decimal digits.
pub open spec fn digits_val(s: Seq<u8>) -> int
    decreases s.len(),
{
    if s.len() == 0 {
        0
    } else {
        digits_val(s.drop_last()) * 10 + (s.last() - 48)
    }
}

/// How many bytes the first line occupies: the prefix up to the first
/// newline, or the whole text.
pub open spec fn line_len(s: Seq<u8>) -> nat
    decreases s.len(),
{
    if s.len() == 0 {
        0
    } else if s[0] == 10 {
        0
    } else {
        1 + line_len(s.drop_first())
    }
}

/// The text split at newlines, in order.
pub open spec fn split_lines(s: Seq<u8>) -> Seq<Seq<u8>>
    decreases s.len(),
{
    if s.len() == 0 {
        Seq::empty()
    } else {
        let l = line_len(s) as int;
        if l >= s.len() {
            seq![s]
        } else {
            seq![s.take(l)] + split_lines(s.skip(l + 1))
        }
    }
}

/// The numbers the text holds, one per line.
pub open spec fn line_values(s: Seq<u8>) -> Seq<int> {
    split_lines(s).map_values(|ln: Seq<u8>| digits_val(ln))
}

/// Whether the text is a non-empty list of newline-separated decimal
/// numbers, each non-empty, each of value at most `bound`.
pub open spec fn wf_number_lines(s: Seq<u8>, bound: int) -> bool {
    &&& split_lines(s).len() > 0
    &&& forall|i: int|
        0 <= i < split_lines(s).len() ==> {
            let ln = #[trigger] split_lines(s)[i];
            ln.len() > 0 && (forall|j: int| 0 <= j < ln.len() ==> is_digit(#[trigger] ln[j]))
                && 0 <= digits_val(ln) <= bound
        }
}

/// The first line is as long as the run of non-newline bytes at the front.
pub(crate) proof fn lemma_line_len_is(s: Seq<u8>, l: int)
    requires
        0 <= l <= s.len(),
        forall|i: int| 0 <= i < l ==> s[i] != 10,
        l == s.len() || s[l] == 10,
    ensures
        line_len(s) == l,
    decreases l,
{
    if s.len() == 0 {
    } else if l == 0 {
    } else {
        assert(s[0] != 10);
        let t = s.drop_first();
        assert forall|i: int| 0 <= i < l - 1 implies t[i] != 10 by {
            assert(t[i] == s[i + 1]);
        }
        if l - 1 < t.len() {
            assert(t[l - 1] == s[l as int]);
        }
        lemma_line_len_is(t, l - 1);
    }
}

/// The value of a digit string grows with its length.
proof fn lemma_digits_val_mono(s: Seq<u8>, j: int)
    requires
        0 <= j <= s.len(),
        forall|i: int| 0 <= i < s.len() ==> is_digit(#[trigger] s[i]),
    ensures
        0 <= digits_val(s.take(j)) <= digits_val(s),
    decreases s.len() - j,
{
    if j == s.len() {
        assert(s.take(j) =~= s);
        lemma_digits_val_nonneg(s);
    } else {
        lemma_digits_val_mono(s, j + 1);
        let t = s.take(j + 1);
        assert(t.drop_last() =~= s.take(j));
        assert(t.last() == s[j]);
        assert(digits_val(t) == digits_val(s.take(j)) * 10 + (s[j] - 48));
        lemma_digits_val_nonneg(s.take(j));
    }
}

proof fn lemma_digits_val_nonneg(s: Seq<u8>)
    requires
        forall|i: int| 0 <= i < s.len() ==> is_digit(#[trigger] s[i]),
    ensures
        digits_val(s) >= 0,
    decreases s.len(),
{
    if s.len() > 0 {
        assert forall|i: int| 0 <= i < s.drop_last().len() implies is_digit(
            #[trigger] s.drop_last()[i],
        ) by {
            assert(s.drop_last()[i] == s[i]);
        }
        lemma_digits_val_nonneg(s.drop_last());
    }
}

/// Parses one number per line. The returned values follow `line_values`
/// exactly.
pub fn parse_number_lines(input: &[u8]) -> (r: Vec<u64>)
    requires
        wf_number_lines(input@, u64::MAX as int),
    ensures
        r@.len() == line_values(input@).len(),
        forall|i: int| 0 <= i < r@.len() ==> (#[trigger] r@[i]) as int == line_values(input@)[i],
{
    let n = input.len();
    let mut out: Vec<u64> = Vec::new();
    let mut p: usize = 0;
    proof {
        assert(input@.skip(0) =~= input@);
        assert(split_lines(input@).take(0) =~= Seq::<Seq<u8>>::empty());
        assert(split_lines(input@).take(0) + split_lines(input@) =~= split_lines(input@));
        if n == 0 {
            assert(split_lines(input@).len() == 0);
            assert(false);
        }
    }
    while p < n
        invariant
            n == input@.len(),
            0 <= p <= n,
            wf_number_lines(input@, u64::MAX as int),
            p < n ==> split_lines(input@) =~= split_lines(input@).take(out@.len() as int)
                + split_lines(input@.skip(p as int)),
            p < n ==> split_lines(input@.skip(p as int)).len() + out@.len() == split_lines(
                input@,
            ).len(),
            p == n ==> out@.len() == split_lines(input@).len(),
            forall|i: int|
                0 <= i < out@.len() ==> (#[trigger] out@[i]) as int == line_values(input@)[i],
        decreases n - p,
    {
        // Find the end of the current line.
        let mut e: usize = p;
        while e < n && input[e] != 10
            invariant
                n == input@.len(),
                p <= e <= n,
                forall|i: int| p <= i < e ==> input@[i] != 10,
            decreases n - e,
        {
            e += 1;
        }
        let ghost rest = input@.skip(p as int);
        proof {
            assert forall|i: int| 0 <= i < e - p implies rest[i] != 10 by {
                assert(rest[i] == input@[p + i]);
            }
            if (e - p) < rest.len() {
                assert(rest[(e - p) as int] == input@[e as int]);
            }
            lemma_line_len_is(rest, e as int - p as int);
            assert(split_lines(rest)[0] =~= rest.take(e as int - p as int));
            assert(rest.take(e as int - p as int) =~= input@.subrange(p as int, e as int));
        }
        let ghost line = input@.subrange(p as int, e as int);
        let ghost lix = out@.len() as int;
        proof {
            assert(split_lines(input@)[lix] == split_lines(rest)[0]);
            assert(split_lines(input@)[lix] =~= line);
            assert(line.len() > 0 && forall|j: int| 0 <= j < line.len() ==> is_digit(
                #[trigger] line[j],
            ));
        }
        // Parse the digits of the current line.
        let mut val: u64 = 0;
        let mut q: usize = p;
        while q < e
            invariant
                n == input@.len(),
                p <= q <= e <= n,
                line =~= input@.subrange(p as int, e as int),
                line.len() > 0,
                forall|j: int| 0 <= j < line.len() ==> is_digit(#[trigger] line[j]),
                0 <= digits_val(line) <= u64::MAX,
                val as int == digits_val(line.take(q as int - p as int)),
            decreases e - q,
        {
            let b = input[q];
            proof {
                assert(line[q as int - p as int] == input@[q as int]);
                assert(is_digit(b));
                let t = line.take(q as int - p as int + 1);
                assert(t.drop_last() =~= line.take(q as int - p as int));
                assert(t.last() == b);
                lemma_digits_val_mono(line, q as int - p as int + 1);
                assert(digits_val(t) == val as int * 10 + (b - 48));
                assert(digits_val(t) <= u64::MAX);
            }
            val = val * 10 + ((b - 48) as u64);
            q += 1;
        }
        proof {
            assert(line.take(e as int - p as int) =~= line);
            assert(val as int == digits_val(line));
            assert(line_values(input@)[lix] == digits_val(line));
        }
        out.push(val);
        // Step past the newline, if any.
        let ghost p0 = p as int;
        if e < n {
            p = e + 1;
            proof {
                let l = e as int - p0;
                assert(line_len(rest) == l && l < rest.len());
                assert(split_lines(rest) == seq![rest.take(l)] + split_lines(rest.skip(l + 1)));
                assert(rest.take(l) =~= line);
                assert(rest.skip(l + 1) =~= input@.skip(p as int));
                assert(split_lines(rest) == seq![line] + split_lines(input@.skip(p as int)));
                assert(split_lines(input@).take(lix + 1) =~= split_lines(input@).take(lix)
                    + seq![line]);
                if p < n {
                    assert(split_lines(input@) =~= split_lines(input@).take(lix + 1)
                        + split_lines(input@.skip(p as int)));
                } else {
                    assert(input@.skip(p as int).len() == 0);
                    assert(split_lines(input@.skip(p as int)).len() == 0);
                    assert(out@.len() == split_lines(input@).len());
                }
            }
        } else {
            p = n;
            proof {
                assert(line_len(rest) == rest.len());
                assert(rest =~= line);
                assert(split_lines(rest) == seq![rest]);
                assert(out@.len() == split_lines(input@).len());
            }
        }
    }
    out
}

/// Splits the text at newlines into its raw lines.
pub fn split_rows(input: &[u8]) -> (r: Vec<Vec<u8>>)
    requires
        input@.len() > 0,
    ensures
        r@.map_values(|row: Vec<u8>| row@) == split_lines(input@),
{
    let n = input.len();
    let mut out: Vec<Vec<u8>> = Vec::new();
    let mut p: usize = 0;
    proof {
        assert(input@.skip(0) =~= input@);
        assert(split_lines(input@).take(0) =~= Seq::<Seq<u8>>::empty());
        assert(split_lines(input@).take(0) + split_lines(input@) =~= split_lines(input@));
    }
    while p < n
        invariant
            n == input@.len(),
            0 <= p <= n,
            p < n ==> split_lines(input@) =~= split_lines(input@).take(out@.len() as int)
                + split_lines(input@.skip(p as int)),
            p < n ==> split_lines(input@.skip(p as int)).len() + out@.len() == split_lines(
                input@,
            ).len(),
            p == n ==> out@.len() == split_lines(input@).len(),
            forall|i: int|
                0 <= i < out@.len() ==> (#[trigger] out@[i])@ == split_lines(input@)[i],
        decreases n - p,
    {
        // Find the end of the current line.
        let mut e: usize = p;
        while e < n && input[e] != 10
            invariant
                n == input@.len(),
                p <= e <= n,
                forall|i: int| p <= i < e ==> input@[i] != 10,
            decreases n - e,
        {
            e += 1;
        }
        let ghost rest = input@.skip(p as int);
        proof {
            assert forall|i: int| 0 <= i < e - p implies rest[i] != 10 by {
                assert(rest[i] == input@[p + i]);
            }
            if (e - p) < rest.len() {
                assert(rest[(e - p) as int] == input@[e as int]);
            }
            lemma_line_len_is(rest, e as int - p as int);
            assert(split_lines(rest)[0] =~= rest.take(e as int - p as int));
            assert(rest.take(e as int - p as int) =~= input@.subrange(p as int, e as int));
        }
        let ghost line = input@.subrange(p as int, e as int);
        let ghost lix = out@.len() as int;
        proof {
            assert(split_lines(input@)[lix] == split_lines(rest)[0]);
            assert(split_lines(input@)[lix] =~= line);
        }
        // Copy the line's bytes.
        let mut row: Vec<u8> = Vec::new();
        let mut q: usize = p;
        while q < e
            invariant
                n == input@.len(),
                p <= q <= e <= n,
                row@ =~= input@.subrange(p as int, q as int),
            decreases e - q,
        {
            row.push(input[q]);
            proof {
                assert(row@ =~= input@.subrange(p as int, q as int + 1));
            }
            q += 1;
        }
        proof {
            assert(row@ =~= line);
        }
        out.push(row);
        // Step past the newline, if any.
        let ghost p0 = p as int;
        if e < n {
            p = e + 1;
            proof {
                let l = e as int - p0;
                assert(line_len(rest) == l && l < rest.len());
                assert(split_lines(rest) == seq![rest.take(l)] + split_lines(rest.skip(l + 1)));
                assert(rest.take(l) =~= line);
                assert(rest.skip(l + 1) =~= input@.skip(p as int));
                assert(split_lines(rest) == seq![line] + split_lines(input@.skip(p as int)));
                assert(split_lines(input@).take(lix + 1) =~= split_lines(input@).take(lix)
                    + seq![line]);
                if p < n {
                    assert(split_lines(input@) =~= split_lines(input@).take(lix + 1)
                        + split_lines(input@.skip(p as int)));
                } else {
                    assert(input@.skip(p as int).len() == 0);
                    assert(split_lines(input@.skip(p as int)).len() == 0);
                    assert(out@.len() == split_lines(input@).len());
                }
            }
        } else {
            p = n;
            proof {
                assert(line_len(rest) == rest.len());
                assert(rest =~= line);
                assert(split_lines(rest) == seq![rest]);
                assert(out@.len() == split_lines(input@).len());
            }
        }
    }
    out
}

} // verus!
