//! Report rendering: one line per duplicate group — the size of the group's
//! first member, then every member's path, space-separated, with spaces and
//! backslashes in paths escaped by a preceding backslash so each line can be
//! tokenized unambiguously.

use vstd::prelude::*;

use crate::table::DigestTable;
use crate::table::EntryModel;
use crate::table::GroupModel;

verus! {

/// How one byte of a path is rendered: a backslash (92) or a space (32) gets a
/// preceding backslash; every other byte stands alone.
pub open spec fn escaped_byte(b: u8) -> Seq<u8> {
    if b == 92 || b == 32 {
        seq![92u8, b]
    } else {
        seq![b]
    }
}

/// A path rendered with its spaces and backslashes escaped.
pub open spec fn escape_bytes(s: Seq<u8>) -> Seq<u8>
    decreases s.len(),
{
    if s.len() == 0 {
        Seq::empty()
    } else {
        escaped_byte(s.first()) + escape_bytes(s.drop_first())
    }
}

/// Escaping distributes over appending one byte.
pub proof fn lemma_escape_push(s: Seq<u8>, b: u8)
    ensures
        escape_bytes(s.push(b)) == escape_bytes(s) + escaped_byte(b),
    decreases s.len(),
{
    if s.len() == 0 {
        let p = s.push(b);
        assert(p.first() == b);
        assert(p.drop_first() =~= Seq::<u8>::empty());
        assert(escape_bytes(p) == escaped_byte(b) + escape_bytes(p.drop_first()));
        assert(escape_bytes(p.drop_first()) == Seq::<u8>::empty());
        assert(escape_bytes(p) =~= escape_bytes(s) + escaped_byte(b));
    } else {
        assert(s.push(b).first() == s.first());
        assert(s.push(b).drop_first() =~= s.drop_first().push(b));
        lemma_escape_push(s.drop_first(), b);
        assert(escape_bytes(s.push(b)) =~= escape_bytes(s) + escaped_byte(b));
    }
}

/// Escapes a path.
pub fn escape_path(p: &[u8]) -> (r: Vec<u8>)
    ensures
        r@ == escape_bytes(p@),
{
    let n = p.len();
    let mut out: Vec<u8> = Vec::new();
    proof {
        assert(p@.take(0) =~= Seq::<u8>::empty());
    }
    let mut i: usize = 0;
    while i < n
        invariant
            0 <= i <= n,
            n == p@.len(),
            out@ == escape_bytes(p@.take(i as int)),
        decreases n - i,
    {
        let b = p[i];
        if b == 92 || b == 32 {
            out.push(92);
            out.push(b);
        } else {
            out.push(b);
        }
        proof {
            assert(p@.take(i + 1) =~= p@.take(i as int).push(b));
            lemma_escape_push(p@.take(i as int), b);
            assert(out@ =~= escape_bytes(p@.take(i as int)) + escaped_byte(b));
        }
        i = i + 1;
    }
    proof {
        assert(p@.take(n as int) =~= p@);
    }
    out
}

/// The inverse reading of an escaped token: a backslash takes the following
/// byte literally; a token ending in a bare backslash is malformed.
pub open spec fn unescape_bytes(s: Seq<u8>) -> Option<Seq<u8>>
    decreases s.len(),
{
    if s.len() == 0 {
        Some(Seq::empty())
    } else if s.first() == 92 {
        if s.len() >= 2 {
            match unescape_bytes(s.skip(2)) {
                Some(r) => Some(seq![s[1]] + r),
                None => None,
            }
        } else {
            None
        }
    } else {
        match unescape_bytes(s.drop_first()) {
            Some(r) => Some(seq![s.first()] + r),
            None => None,
        }
    }
}

/// Escaping round-trip law: unescaping an escaped path recovers the path.
pub proof fn lemma_escape_roundtrip(s: Seq<u8>)
    ensures
        unescape_bytes(escape_bytes(s)) == Some(s),
    decreases s.len(),
{
    if s.len() > 0 {
        let b = s.first();
        let rest = s.drop_first();
        lemma_escape_roundtrip(rest);
        let es = escape_bytes(s);
        if b == 92 || b == 32 {
            assert(es.skip(2) =~= escape_bytes(rest));
            assert(seq![es[1]] + rest =~= s);
        } else {
            assert(es.drop_first() =~= escape_bytes(rest));
            assert(seq![es.first()] + rest =~= s);
        }
    }
}

/// Unescapes a token; `None` when it ends in a bare backslash.
pub fn unescape_path(s: &[u8]) -> (r: Option<Vec<u8>>)
    ensures
        match r {
            Some(v) => unescape_bytes(s@) == Some(v@),
            None => unescape_bytes(s@) is None,
        },
{
    let n = s.len();
    let mut out: Vec<u8> = Vec::new();
    proof {
        assert(s@.skip(0) =~= s@);
    }
    let mut i: usize = 0;
    while i < n
        invariant
            0 <= i <= n,
            n == s@.len(),
            unescape_bytes(s@) == (match unescape_bytes(s@.skip(i as int)) {
                Some(rest) => Some(out@ + rest),
                None => None::<Seq<u8>>,
            }),
        decreases n - i,
    {
        let ghost pre = out@;
        if s[i] == 92 {
            if i + 1 < n {
                out.push(s[i + 1]);
                proof {
                    assert(s@.skip(i as int).first() == s@[i as int]);
                    assert(s@.skip(i as int).skip(2) =~= s@.skip(i + 2));
                    assert(s@.skip(i as int)[1] == s@[i + 1]);
                    match unescape_bytes(s@.skip(i + 2)) {
                        Some(rest) => {
                            assert(pre + (seq![s@[i + 1]] + rest) =~= out@ + rest);
                        },
                        None => {},
                    }
                }
                i = i + 2;
            } else {
                proof {
                    assert(s@.skip(i as int).len() == 1);
                    assert(s@.skip(i as int).first() == s@[i as int]);
                }
                return None;
            }
        } else {
            out.push(s[i]);
            proof {
                assert(s@.skip(i as int).first() == s@[i as int]);
                assert(s@.skip(i as int).drop_first() =~= s@.skip(i + 1));
                match unescape_bytes(s@.skip(i + 1)) {
                    Some(rest) => {
                        assert(pre + (seq![s@[i as int]] + rest) =~= out@ + rest);
                    },
                    None => {},
                }
            }
            i = i + 1;
        }
    }
    proof {
        assert(s@.skip(n as int) =~= Seq::<u8>::empty());
        assert(out@ + Seq::<u8>::empty() =~= out@);
    }
    Some(out)
}

/// The decimal digits of `n`, most significant first.
pub open spec fn dec_rep(n: nat) -> Seq<u8>
    decreases n,
{
    if n < 10 {
        seq![(48 + n) as u8]
    } else {
        dec_rep(n / 10).push((48 + n % 10) as u8)
    }
}

/// Renders `n` in decimal.
pub fn u64_to_decimal(n: u64) -> (r: Vec<u8>)
    ensures
        r@ == dec_rep(n as nat),
    decreases n,
{
    if n < 10 {
        let mut out: Vec<u8> = Vec::new();
        out.push(48 + (n as u8));
        proof {
            assert(out@ =~= dec_rep(n as nat));
        }
        out
    } else {
        let mut out = u64_to_decimal(n / 10);
        out.push(48 + ((n % 10) as u8));
        out
    }
}

/// Every member's path, each preceded by one space, escaped.
pub open spec fn rendered_paths(ms: Seq<EntryModel>) -> Seq<u8>
    decreases ms.len(),
{
    if ms.len() == 0 {
        Seq::empty()
    } else {
        seq![32u8] + escape_bytes(ms.first().path) + rendered_paths(ms.drop_first())
    }
}

/// Rendering distributes over concatenation of member lists.
pub proof fn lemma_rendered_paths_concat(a: Seq<EntryModel>, b: Seq<EntryModel>)
    ensures
        rendered_paths(a + b) == rendered_paths(a) + rendered_paths(b),
    decreases a.len(),
{
    if a.len() == 0 {
        assert(a + b =~= b);
        assert(rendered_paths(a) + rendered_paths(b) =~= rendered_paths(b));
    } else {
        assert((a + b).first() == a.first());
        assert((a + b).drop_first() =~= a.drop_first() + b);
        lemma_rendered_paths_concat(a.drop_first(), b);
        assert(rendered_paths(a + b) =~= rendered_paths(a) + rendered_paths(b));
    }
}

/// A group's report line: the size of its first (canonically least) member,
/// then each member's escaped path, space-separated.
pub open spec fn line_of(g: GroupModel) -> Seq<u8>
    recommends
        g.members.len() >= 1,
{
    dec_rep(g.members[0].size as nat) + rendered_paths(g.members)
}

/// The report: the groups in table order, those with at least two members each
/// contributing one line.
pub open spec fn report_lines(t: Seq<GroupModel>) -> Seq<Seq<u8>>
    decreases t.len(),
{
    if t.len() == 0 {
        Seq::empty()
    } else if t.first().members.len() >= 2 {
        seq![line_of(t.first())] + report_lines(t.drop_first())
    } else {
        report_lines(t.drop_first())
    }
}

/// The report distributes over concatenation of tables.
pub proof fn lemma_report_lines_concat(a: Seq<GroupModel>, b: Seq<GroupModel>)
    ensures
        report_lines(a + b) == report_lines(a) + report_lines(b),
    decreases a.len(),
{
    if a.len() == 0 {
        assert(a + b =~= b);
        assert(report_lines(a) + report_lines(b) =~= report_lines(b));
    } else {
        assert((a + b).first() == a.first());
        assert((a + b).drop_first() =~= a.drop_first() + b);
        lemma_report_lines_concat(a.drop_first(), b);
        assert(report_lines(a + b) =~= report_lines(a) + report_lines(b));
    }
}

/// Minimality law: every line of the report is the line of a group with at
/// least two members; a single-member group contributes nothing.
pub proof fn lemma_minimality(t: Seq<GroupModel>, k: int)
    requires
        0 <= k < report_lines(t).len(),
    ensures
        exists|i: int|
            0 <= i < t.len() && (#[trigger] t[i]).members.len() >= 2 && report_lines(t)[k]
                == line_of(t[i]),
    decreases t.len(),
{
    if t.first().members.len() >= 2 && k == 0 {
        assert(t[0].members.len() >= 2 && report_lines(t)[0] == line_of(t[0]));
    } else {
        let k2: int = if t.first().members.len() >= 2 {
            k - 1
        } else {
            k
        };
        lemma_minimality(t.drop_first(), k2);
        let i = choose|i: int|
            0 <= i < t.drop_first().len() && (#[trigger] t.drop_first()[i]).members.len() >= 2
                && report_lines(t.drop_first())[k2] == line_of(t.drop_first()[i]);
        assert(t[i + 1] == t.drop_first()[i]);
        assert(t[i + 1].members.len() >= 2 && report_lines(t)[k] == line_of(t[i + 1]));
    }
}

/// Renders the duplicate-group report of a table, one line per group of two or
/// more files.
pub fn render_report(t: &DigestTable) -> (r: Vec<Vec<u8>>)
    ensures
        r@.map_values(|l: Vec<u8>| l@) == report_lines(t@),
{
    let groups = t.groups();
    let n = groups.len();
    let mut out: Vec<Vec<u8>> = Vec::new();
    proof {
        assert(t@.take(0) =~= Seq::<GroupModel>::empty());
        assert(out@.map_values(|l: Vec<u8>| l@) =~= report_lines(t@.take(0)));
    }
    let mut i: usize = 0;
    while i < n
        invariant
            0 <= i <= n,
            n == groups@.len(),
            groups@.map_values(|g: crate::table::Group| g@) == t@,
            out@.map_values(|l: Vec<u8>| l@) == report_lines(t@.take(i as int)),
        decreases n - i,
    {
        let ghost gm = t@[i as int];
        let g = &groups[i];
        proof {
            assert(g@ == gm);
        }
        let m = g.members.len();
        if m >= 2 {
            let mut line = u64_to_decimal(g.members[0].size);
            proof {
                assert(gm.members.take(0) =~= Seq::<EntryModel>::empty());
                assert(line@ =~= dec_rep(gm.members[0].size as nat) + rendered_paths(
                    gm.members.take(0),
                ));
            }
            let mut j: usize = 0;
            while j < m
                invariant
                    0 <= j <= m,
                    m == g.members@.len(),
                    g@ == gm,
                    gm.members.len() == m,
                    line@ == dec_rep(gm.members[0].size as nat) + rendered_paths(
                        gm.members.take(j as int),
                    ),
                decreases m - j,
            {
                line.push(32);
                let mut esc = escape_path(g.members[j].path.as_slice());
                line.append(&mut esc);
                proof {
                    assert(gm.members[j as int] == g.members@[j as int]@);
                    assert(gm.members.take(j + 1) =~= gm.members.take(j as int) + seq![
                        gm.members[j as int],
                    ]);
                    lemma_rendered_paths_concat(
                        gm.members.take(j as int),
                        seq![gm.members[j as int]],
                    );
                    let single = seq![gm.members[j as int]];
                    assert(single.first() == gm.members[j as int]);
                    assert(single.drop_first() =~= Seq::<EntryModel>::empty());
                    assert(rendered_paths(single) == seq![32u8] + escape_bytes(
                        single.first().path,
                    ) + rendered_paths(single.drop_first()));
                    assert(rendered_paths(single.drop_first()) == Seq::<u8>::empty());
                    assert(rendered_paths(single) =~= seq![32u8] + escape_bytes(
                        gm.members[j as int].path,
                    ));
                    assert(line@ =~= dec_rep(gm.members[0].size as nat) + rendered_paths(
                        gm.members.take(j + 1),
                    ));
                }
                j = j + 1;
            }
            proof {
                assert(gm.members.take(m as int) =~= gm.members);
                assert(line@ == line_of(gm));
            }
            out.push(line);
        }
        proof {
            assert(t@.take(i + 1) =~= t@.take(i as int) + seq![gm]);
            lemma_report_lines_concat(t@.take(i as int), seq![gm]);
            let single = seq![gm];
            assert(single.first() == gm);
            assert(single.drop_first() =~= Seq::<GroupModel>::empty());
            assert(report_lines(single.drop_first()) == Seq::<Seq<u8>>::empty());
            if gm.members.len() >= 2 {
                assert(report_lines(single) == seq![line_of(gm)] + report_lines(
                    single.drop_first(),
                ));
                assert(report_lines(single) =~= seq![line_of(gm)]);
            } else {
                assert(report_lines(single) =~= Seq::<Seq<u8>>::empty());
            }
            assert(out@.map_values(|l: Vec<u8>| l@) =~= report_lines(t@.take(i + 1)));
        }
        i = i + 1;
    }
    proof {
        assert(t@.take(n as int) =~= t@);
    }
    out
}

} // verus!
