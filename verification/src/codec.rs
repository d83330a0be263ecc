use vstd::prelude::*;

verus! {

// The catalogs are delimited text: one record per line, fields separated by
// commas, a field quoted with '"' when it holds a comma, a quote, or a line
// break, and a quote inside a quoted field written twice.

pub const QUOTE: u8 = 34;
pub const COMMA: u8 = 44;
pub const LF: u8 = 10;
pub const CR: u8 = 13;

// --- Writing ---

/// Whether a field must be quoted to survive the trip through a record line.
pub open spec fn field_needs_quotes(f: Seq<u8>) -> bool {
    exists|i: int|
        0 <= i < f.len() && ((#[trigger] f[i]) == QUOTE || f[i] == COMMA || f[i] == LF
            || f[i] == CR)
}

/// `f` with every quote doubled.
pub open spec fn doubled_quotes(f: Seq<u8>) -> Seq<u8>
    decreases f.len(),
{
    if f.len() == 0 {
        Seq::empty()
    } else {
        doubled_quotes(f.drop_last()) + (if f.last() == QUOTE {
            seq![QUOTE, QUOTE]
        } else {
            seq![f.last()]
        })
    }
}

/// How a field is written into a record line: quoted exactly when needed.
pub open spec fn enc_field(f: Seq<u8>) -> Seq<u8> {
    if field_needs_quotes(f) {
        seq![QUOTE] + doubled_quotes(f) + seq![QUOTE]
    } else {
        f
    }
}

/// Appends the encoding of one field to `out`.
pub fn push_field(out: &mut Vec<u8>, f: &[u8])
    ensures
        final(out)@ == old(out)@ + enc_field(f@),
{
    let mut needs = false;
    let mut i: usize = 0;
    while i < f.len()
        invariant
            0 <= i <= f@.len(),
            needs == field_needs_quotes(f@.take(i as int)),
        decreases f@.len() - i,
    {
        let b = f[i];
        proof {
            assert(f@.take(i + 1).drop_last() =~= f@.take(i as int));
            assert(f@.take(i + 1)[i as int] == f@[i as int]);
        }
        if b == QUOTE || b == COMMA || b == LF || b == CR {
            needs = true;
            assert(field_needs_quotes(f@.take(i + 1)));
        } else {
            proof {
                if field_needs_quotes(f@.take(i + 1)) {
                    let j = choose|j: int|
                        0 <= j < i + 1 && ((#[trigger] f@.take(i + 1)[j]) == QUOTE || f@.take(
                            i + 1,
                        )[j] == COMMA || f@.take(i + 1)[j] == LF || f@.take(i + 1)[j] == CR);
                    assert(f@.take(i + 1)[j] == f@[j]);
                    if j < i {
                        assert(f@.take(i as int)[j] == f@[j]);
                        assert(field_needs_quotes(f@.take(i as int)));
                    }
                }
            }
        }
        i += 1;
    }
    assert(f@.take(f@.len() as int) =~= f@);
    if !needs {
        out.extend_from_slice(f);
        assert(out@ =~= old(out)@ + enc_field(f@));
        return ;
    }
    out.push(QUOTE);
    let ghost start = out@;
    let mut i: usize = 0;
    while i < f.len()
        invariant
            0 <= i <= f@.len(),
            out@ == start + doubled_quotes(f@.take(i as int)),
            start == old(out)@ + seq![QUOTE],
        decreases f@.len() - i,
    {
        let b = f[i];
        proof {
            assert(f@.take(i + 1).drop_last() =~= f@.take(i as int));
            assert(f@.take(i + 1).last() == f@[i as int]);
        }
        if b == QUOTE {
            out.push(QUOTE);
            out.push(QUOTE);
        } else {
            out.push(b);
        }
        assert(out@ =~= start + doubled_quotes(f@.take(i + 1)));
        i += 1;
    }
    out.push(QUOTE);
    assert(f@.take(f@.len() as int) =~= f@);
    assert(out@ =~= old(out)@ + enc_field(f@));
}

// --- Splitting a byte stream into lines ---

/// The byte sequences held by a sequence of byte vectors.
pub open spec fn byte_views(vs: Seq<Vec<u8>>) -> Seq<Seq<u8>> {
    vs.map_values(|v: Vec<u8>| v@)
}

pub open spec fn lines_rec(b: Seq<u8>, i: int, cur: Seq<u8>, acc: Seq<Seq<u8>>) -> Seq<Seq<u8>>
    decreases b.len() - i,
{
    if i < 0 || i >= b.len() {
        if cur.len() == 0 {
            acc
        } else {
            acc.push(cur)
        }
    } else if b[i] == LF {
        lines_rec(b, i + 1, Seq::empty(), acc.push(cur))
    } else {
        lines_rec(b, i + 1, cur.push(b[i]), acc)
    }
}

/// The lines of `b`, split on line feeds; a trailing line feed opens no
/// further line.
pub open spec fn split_lines(b: Seq<u8>) -> Seq<Seq<u8>> {
    lines_rec(b, 0, Seq::empty(), Seq::empty())
}

/// Splits `b` into its lines.
pub fn lines_of(b: &Vec<u8>) -> (r: Vec<Vec<u8>>)
    ensures
        byte_views(r@) == split_lines(b@),
{
    let mut acc: Vec<Vec<u8>> = Vec::new();
    let mut cur: Vec<u8> = Vec::new();
    let mut i: usize = 0;
    assert(byte_views(acc@) =~= Seq::<Seq<u8>>::empty());
    while i < b.len()
        invariant
            0 <= i <= b@.len(),
            split_lines(b@) == lines_rec(b@, i as int, cur@, byte_views(acc@)),
        decreases b@.len() - i,
    {
        let ghost prev_acc = byte_views(acc@);
        let ghost prev_cur = cur@;
        let x = b[i];
        if x == LF {
            acc.push(cur);
            cur = Vec::new();
            assert(byte_views(acc@) =~= prev_acc.push(prev_cur));
        } else {
            cur.push(x);
        }
        i += 1;
    }
    if cur.len() > 0 {
        let ghost prev_acc = byte_views(acc@);
        let ghost prev_cur = cur@;
        acc.push(cur);
        assert(byte_views(acc@) =~= prev_acc.push(prev_cur));
    }
    acc
}

// --- Splitting a record line into fields ---

pub enum FieldState {
    /// At the start of a field, nothing of it seen yet.
    Bare,
    /// Inside an unquoted field.
    Plain,
    /// Inside a quoted field.
    Quoted,
    /// Just after the closing quote of a quoted field.
    AfterQuote,
}

pub open spec fn fields_rec(
    l: Seq<u8>,
    i: int,
    st: FieldState,
    cur: Seq<u8>,
    acc: Seq<Seq<u8>>,
) -> Option<Seq<Seq<u8>>>
    decreases l.len() - i,
{
    if i < 0 || i >= l.len() {
        match st {
            FieldState::Quoted => None,
            _ => Some(acc.push(cur)),
        }
    } else {
        let b = l[i];
        match st {
            FieldState::Bare => {
                if b == QUOTE {
                    fields_rec(l, i + 1, FieldState::Quoted, cur, acc)
                } else if b == COMMA {
                    fields_rec(l, i + 1, FieldState::Bare, Seq::empty(), acc.push(cur))
                } else {
                    fields_rec(l, i + 1, FieldState::Plain, cur.push(b), acc)
                }
            },
            FieldState::Plain => {
                if b == COMMA {
                    fields_rec(l, i + 1, FieldState::Bare, Seq::empty(), acc.push(cur))
                } else {
                    fields_rec(l, i + 1, FieldState::Plain, cur.push(b), acc)
                }
            },
            FieldState::Quoted => {
                if b == QUOTE {
                    fields_rec(l, i + 1, FieldState::AfterQuote, cur, acc)
                } else {
                    fields_rec(l, i + 1, FieldState::Quoted, cur.push(b), acc)
                }
            },
            FieldState::AfterQuote => {
                if b == QUOTE {
                    fields_rec(l, i + 1, FieldState::Quoted, cur.push(QUOTE), acc)
                } else if b == COMMA {
                    fields_rec(l, i + 1, FieldState::Bare, Seq::empty(), acc.push(cur))
                } else {
                    None
                }
            },
        }
    }
}

/// The fields of one record line, or `None` when its quoting is broken
/// (an unterminated quote, or bytes after a closing quote).
pub open spec fn parse_fields(l: Seq<u8>) -> Option<Seq<Seq<u8>>> {
    fields_rec(l, 0, FieldState::Bare, Seq::empty(), Seq::empty())
}

// --- How parsing relates to writing ---

/// A byte that carries no delimiter or quoting meaning in a record line.
pub open spec fn is_plain_byte(b: u8) -> bool {
    b != QUOTE && b != COMMA && b != LF && b != CR
}

proof fn lemma_dq_concat(a: Seq<u8>, b: Seq<u8>)
    ensures
        doubled_quotes(a + b) == doubled_quotes(a) + doubled_quotes(b),
    decreases b.len(),
{
    if b.len() == 0 {
        assert(a + b =~= a);
        assert(doubled_quotes(a) + doubled_quotes(b) =~= doubled_quotes(a));
    } else {
        lemma_dq_concat(a, b.drop_last());
        assert((a + b).drop_last() =~= a + b.drop_last());
        assert((a + b).last() == b.last());
        assert(doubled_quotes(a + b) =~= doubled_quotes(a) + doubled_quotes(b));
    }
}

proof fn lemma_dq_no_lf(f: Seq<u8>)
    requires
        forall|i: int| 0 <= i < f.len() ==> f[i] != LF,
    ensures
        forall|j: int| 0 <= j < doubled_quotes(f).len() ==> #[trigger] doubled_quotes(f)[j] != LF,
    decreases f.len(),
{
    if f.len() > 0 {
        assert(forall|i: int| 0 <= i < f.drop_last().len() ==> f.drop_last()[i] == f[i]);
        lemma_dq_no_lf(f.drop_last());
        let d = doubled_quotes(f);
        let head = doubled_quotes(f.drop_last());
        assert forall|j: int| 0 <= j < d.len() implies #[trigger] d[j] != LF by {
            if j < head.len() {
                assert(d[j] == head[j]);
            } else {
                assert(f.last() != LF);
            }
        }
    }
}

/// An encoded field holds a line feed only where the field itself does.
pub proof fn lemma_enc_field_no_lf(f: Seq<u8>)
    requires
        forall|i: int| 0 <= i < f.len() ==> f[i] != LF,
    ensures
        forall|j: int| 0 <= j < enc_field(f).len() ==> #[trigger] enc_field(f)[j] != LF,
{
    if field_needs_quotes(f) {
        lemma_dq_no_lf(f);
        let e = enc_field(f);
        let d = doubled_quotes(f);
        assert forall|j: int| 0 <= j < e.len() implies #[trigger] e[j] != LF by {
            if j == 0 {
                assert(e[j] == QUOTE);
            } else if j < 1 + d.len() {
                assert(e[j] == d[j - 1]);
            } else {
                assert(e[j] == QUOTE);
            }
        }
    }
}

/// Splitting lines walks straight through a stretch without line feeds.
pub proof fn lemma_lines_run(b: Seq<u8>, i: int, k: int, cur: Seq<u8>, acc: Seq<Seq<u8>>)
    requires
        0 <= i,
        0 <= k,
        i + k <= b.len(),
        forall|j: int| i <= j < i + k ==> b[j] != LF,
    ensures
        lines_rec(b, i, cur, acc) == lines_rec(b, i + k, cur + b.subrange(i, i + k), acc),
    decreases k,
{
    if k == 0 {
        assert(cur + b.subrange(i, i) =~= cur);
    } else {
        assert(b[i] != LF);
        lemma_lines_run(b, i + 1, k - 1, cur.push(b[i]), acc);
        assert(cur.push(b[i]) + b.subrange(i + 1, i + k) =~= cur + b.subrange(i, i + k));
    }
}

/// Splitting fields walks straight through a stretch of plain bytes,
/// collecting them into the current field.
proof fn lemma_fields_plain_run(
    l: Seq<u8>,
    i: int,
    k: int,
    st: FieldState,
    cur: Seq<u8>,
    acc: Seq<Seq<u8>>,
)
    requires
        0 <= i,
        0 <= k,
        i + k <= l.len(),
        st == FieldState::Bare || st == FieldState::Plain,
        forall|j: int| i <= j < i + k ==> is_plain_byte(#[trigger] l[j]),
    ensures
        fields_rec(l, i, st, cur, acc) == fields_rec(
            l,
            i + k,
            if k > 0 {
                FieldState::Plain
            } else {
                st
            },
            cur + l.subrange(i, i + k),
            acc,
        ),
    decreases k,
{
    if k == 0 {
        assert(cur + l.subrange(i, i) =~= cur);
    } else {
        assert(is_plain_byte(l[i]));
        lemma_fields_plain_run(l, i + 1, k - 1, FieldState::Plain, cur.push(l[i]), acc);
        assert(cur.push(l[i]) + l.subrange(i + 1, i + k) =~= cur + l.subrange(i, i + k));
    }
}

/// Inside quotes, the doubled encoding of a field walks back to the
/// field itself.
proof fn lemma_fields_quoted_run(l: Seq<u8>, i: int, f: Seq<u8>, cur: Seq<u8>, acc: Seq<Seq<u8>>)
    requires
        0 <= i,
        i + doubled_quotes(f).len() <= l.len(),
        l.subrange(i, i + doubled_quotes(f).len()) == doubled_quotes(f),
    ensures
        fields_rec(l, i, FieldState::Quoted, cur, acc) == fields_rec(
            l,
            i + doubled_quotes(f).len(),
            FieldState::Quoted,
            cur + f,
            acc,
        ),
    decreases f.len(),
{
    if f.len() == 0 {
        assert(doubled_quotes(f) =~= Seq::<u8>::empty());
        assert(cur + f =~= cur);
    } else {
        let first = seq![f[0]];
        let rest = f.drop_first();
        assert(f =~= first + rest);
        lemma_dq_concat(first, rest);
        let dqf = doubled_quotes(first);
        let dqr = doubled_quotes(rest);
        assert(doubled_quotes(f) == dqf + dqr);
        assert(first.drop_last() =~= Seq::<u8>::empty());
        assert(doubled_quotes(Seq::<u8>::empty()) =~= Seq::<u8>::empty());
        assert(first.last() == f[0]);
        let n = doubled_quotes(f).len() as int;
        if f[0] == QUOTE {
            assert(dqf =~= seq![QUOTE, QUOTE]);
            assert(l[i] == l.subrange(i, i + n)[0]);
            assert(l[i + 1] == l.subrange(i, i + n)[1]);
            assert((dqf + dqr)[0] == QUOTE && (dqf + dqr)[1] == QUOTE);
            assert(l.subrange(i + 2, i + 2 + dqr.len() as int) =~= dqr) by {
                assert(forall|j: int|
                    0 <= j < dqr.len() ==> #[trigger] l.subrange(i + 2, i + 2 + dqr.len() as int)[j]
                        == l.subrange(i, i + n)[j + 2]);
            }
            assert(fields_rec(l, i, FieldState::Quoted, cur, acc) == fields_rec(
                l,
                i + 1,
                FieldState::AfterQuote,
                cur,
                acc,
            ));
            assert(fields_rec(l, i + 1, FieldState::AfterQuote, cur, acc) == fields_rec(
                l,
                i + 2,
                FieldState::Quoted,
                cur.push(QUOTE),
                acc,
            ));
            lemma_fields_quoted_run(l, i + 2, rest, cur.push(QUOTE), acc);
            assert(cur.push(QUOTE) + rest =~= cur + f);
        } else {
            assert(dqf =~= seq![f[0]]);
            assert(l[i] == l.subrange(i, i + n)[0]);
            assert((dqf + dqr)[0] == f[0]);
            assert(l.subrange(i + 1, i + 1 + dqr.len() as int) =~= dqr) by {
                assert(forall|j: int|
                    0 <= j < dqr.len() ==> #[trigger] l.subrange(i + 1, i + 1 + dqr.len() as int)[j]
                        == l.subrange(i, i + n)[j + 1]);
            }
            assert(fields_rec(l, i, FieldState::Quoted, cur, acc) == fields_rec(
                l,
                i + 1,
                FieldState::Quoted,
                cur.push(f[0]),
                acc,
            ));
            lemma_fields_quoted_run(l, i + 1, rest, cur.push(f[0]), acc);
            assert(cur.push(f[0]) + rest =~= cur + f);
        }
    }
}

/// One encoded field, read from the start of a fresh field, parses back
/// to the field itself: followed by a comma it joins the record and the
/// scan goes on behind the comma; ending the line it closes the record.
pub proof fn lemma_fields_one_field(l: Seq<u8>, i: int, f: Seq<u8>, acc: Seq<Seq<u8>>)
    requires
        0 <= i,
        i + enc_field(f).len() <= l.len(),
        l.subrange(i, i + enc_field(f).len()) == enc_field(f),
    ensures
        ({
            let e = i + enc_field(f).len();
            &&& (e < l.len() && l[e] == COMMA ==> fields_rec(l, i, FieldState::Bare, Seq::empty(), acc)
                == fields_rec(l, e + 1, FieldState::Bare, Seq::empty(), acc.push(f)))
            &&& (e == l.len() ==> fields_rec(l, i, FieldState::Bare, Seq::empty(), acc) == Some(
                acc.push(f),
            ))
        }),
{
    let enc = enc_field(f);
    let e = i + enc.len();
    if field_needs_quotes(f) {
        let d = doubled_quotes(f);
        assert(enc =~= seq![QUOTE] + d + seq![QUOTE]);
        assert(l[i] == l.subrange(i, i + enc.len() as int)[0]);
        assert(enc[0] == QUOTE);
        assert(l.subrange(i + 1, i + 1 + d.len() as int) =~= d) by {
            assert(forall|j: int|
                0 <= j < d.len() ==> #[trigger] l.subrange(i + 1, i + 1 + d.len() as int)[j]
                    == l.subrange(i, i + enc.len() as int)[j + 1]);
        }
        assert(fields_rec(l, i, FieldState::Bare, Seq::empty(), acc) == fields_rec(
            l,
            i + 1,
            FieldState::Quoted,
            Seq::empty(),
            acc,
        ));
        lemma_fields_quoted_run(l, i + 1, f, Seq::empty(), acc);
        assert(Seq::<u8>::empty() + f =~= f);
        let c = i + 1 + d.len() as int;
        assert(l[c] == l.subrange(i, i + enc.len() as int)[1 + d.len() as int]);
        assert(enc[1 + d.len() as int] == QUOTE);
        assert(fields_rec(l, c, FieldState::Quoted, f, acc) == fields_rec(
            l,
            e,
            FieldState::AfterQuote,
            f,
            acc,
        ));
        if e < l.len() && l[e] == COMMA {
            assert(fields_rec(l, e, FieldState::AfterQuote, f, acc) == fields_rec(
                l,
                e + 1,
                FieldState::Bare,
                Seq::empty(),
                acc.push(f),
            ));
        }
        if e == l.len() {
            assert(fields_rec(l, e, FieldState::AfterQuote, f, acc) == Some(acc.push(f)));
        }
    } else {
        assert(enc == f);
        assert forall|j: int| i <= j < i + f.len() implies is_plain_byte(#[trigger] l[j]) by {
            assert(l[j] == l.subrange(i, i + enc.len() as int)[j - i]);
            if !is_plain_byte(f[j - i]) {
                assert(field_needs_quotes(f));
            }
        }
        lemma_fields_plain_run(l, i, f.len() as int, FieldState::Bare, Seq::empty(), acc);
        assert(Seq::<u8>::empty() + l.subrange(i, i + f.len() as int) =~= f);
        let st2 = if f.len() > 0 {
            FieldState::Plain
        } else {
            FieldState::Bare
        };
        assert(fields_rec(l, i, FieldState::Bare, Seq::empty(), acc) == fields_rec(
            l,
            e,
            st2,
            f,
            acc,
        ));
        if e < l.len() && l[e] == COMMA {
            assert(fields_rec(l, e, st2, f, acc) == fields_rec(
                l,
                e + 1,
                FieldState::Bare,
                Seq::empty(),
                acc.push(f),
            ));
        }
        if e == l.len() {
            assert(fields_rec(l, e, st2, f, acc) == Some(acc.push(f)));
        }
    }
}

/// Splits one record line into its fields.
pub fn fields_of(l: &Vec<u8>) -> (r: Option<Vec<Vec<u8>>>)
    ensures
        match r {
            Some(fs) => parse_fields(l@) == Some(byte_views(fs@)),
            None => parse_fields(l@) is None,
        },
{
    let mut acc: Vec<Vec<u8>> = Vec::new();
    let mut cur: Vec<u8> = Vec::new();
    let mut st = FieldState::Bare;
    let mut i: usize = 0;
    assert(byte_views(acc@) =~= Seq::<Seq<u8>>::empty());
    while i < l.len()
        invariant
            0 <= i <= l@.len(),
            parse_fields(l@) == fields_rec(l@, i as int, st, cur@, byte_views(acc@)),
        decreases l@.len() - i,
    {
        let ghost prev_acc = byte_views(acc@);
        let ghost prev_cur = cur@;
        let b = l[i];
        match st {
            FieldState::Bare => {
                if b == QUOTE {
                    st = FieldState::Quoted;
                } else if b == COMMA {
                    acc.push(cur);
                    cur = Vec::new();
                    assert(byte_views(acc@) =~= prev_acc.push(prev_cur));
                } else {
                    st = FieldState::Plain;
                    cur.push(b);
                }
            },
            FieldState::Plain => {
                if b == COMMA {
                    st = FieldState::Bare;
                    acc.push(cur);
                    cur = Vec::new();
                    assert(byte_views(acc@) =~= prev_acc.push(prev_cur));
                } else {
                    cur.push(b);
                }
            },
            FieldState::Quoted => {
                if b == QUOTE {
                    st = FieldState::AfterQuote;
                } else {
                    cur.push(b);
                }
            },
            FieldState::AfterQuote => {
                if b == QUOTE {
                    st = FieldState::Quoted;
                    cur.push(QUOTE);
                } else if b == COMMA {
                    st = FieldState::Bare;
                    acc.push(cur);
                    cur = Vec::new();
                    assert(byte_views(acc@) =~= prev_acc.push(prev_cur));
                } else {
                    return None;
                }
            },
        }
        i += 1;
    }
    match st {
        FieldState::Quoted => None,
        _ => {
            let ghost prev_acc = byte_views(acc@);
            let ghost prev_cur = cur@;
            acc.push(cur);
            assert(byte_views(acc@) =~= prev_acc.push(prev_cur));
            Some(acc)
        },
    }
}

} // verus!
