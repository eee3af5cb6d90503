//! SEARCH and UID SEARCH: RETURN options, search keys and the SEARCH or
//! ESEARCH response.
use vstd::prelude::*;
use vstd::string::StringSliceAdditionalSpecFns;
use vstd::utf8::encode_utf8;
use crate::codec::{
    astring_result, crlf_result, lemma_crlf_det, lemma_astring_det, lemma_number64_det, lemma_run_det, lemma_sp_det, number64_result,
    run_result, sp_result, span, string_bytes, ByteClass,
    AsyncDecoder,
};
use crate::conn::Conn;
use crate::error::{ImapError, ImapResult};
use crate::search::{is_blank_criteria, SearchCriteria, SearchOptions};
use crate::seqset::{SeqSet, add_range_spec, ranges_normal, ranges_wire};
use crate::text::{chars_of, dec_digits, latin1, upper_char_vec, upper_chars};
use crate::cmd::mailbox::status_list;
use crate::types::{Cap, ConnState};
use crate::cmd::noop::only_decoder_moved;
use crate::cmd::select::completed_bytes;
use crate::writer::lit;

verus! {

/// The ranges after adding each number in turn (`add_num`).
pub open spec fn add_nums(rs: Seq<(u32, u32)>, ids: Seq<u32>) -> Seq<(u32, u32)>
    decreases ids.len(),
{
    if ids.len() == 0 {
        rs
    } else {
        add_range_spec(add_nums(rs, ids.drop_last()), ids.last(), ids.last())
    }
}

/// A sequence set holding the numbers, added one at a time: in normal
/// form.
pub fn build_seqset(ids: &[u32]) -> (r: SeqSet)
    ensures
        r@ == add_nums(Seq::empty(), ids@),
        ranges_normal(r@),
{
    let mut set = SeqSet(Vec::new());
    let mut i: usize = 0;
    assert(ids@.take(0) =~= Seq::<u32>::empty());
    while i < ids.len()
        invariant
            i <= ids.len(),
            set@ == add_nums(Seq::empty(), ids@.take(i as int)),
            ranges_normal(set@),
        decreases ids.len() - i,
    {
        proof {
            assert(ids@.take(i + 1).drop_last() =~= ids@.take(i as int));
        }
        set.add_num(ids[i]);
        i += 1;
    }
    assert(ids@.take(ids@.len() as int) =~= ids@);
    set
}

fn word_is(u: &[char], w: &str) -> (r: bool)
    ensures
        r == (u@ == w@),
{
    crate::fetch::is_word(u, w)
}

/// The RETURN option names are distinct.
proof fn lemma_return_names()
    ensures
        "MIN"@ != "MAX"@ && "MIN"@ != "ALL"@ && "MIN"@ != "COUNT"@ && "MIN"@ != "SAVE"@,
        "MAX"@ != "ALL"@ && "MAX"@ != "COUNT"@ && "MAX"@ != "SAVE"@,
        "ALL"@ != "COUNT"@ && "ALL"@ != "SAVE"@ && "COUNT"@ != "SAVE"@,
{
    reveal_strlit("MIN");
    reveal_strlit("MAX");
    reveal_strlit("ALL");
    reveal_strlit("COUNT");
    reveal_strlit("SAVE");
    assert("MIN"@[1] != "MAX"@[1]);
    assert("MIN"@[0] != "ALL"@[0]);
    assert("MIN"@.len() != "COUNT"@.len());
    assert("MIN"@.len() != "SAVE"@.len());
    assert("MAX"@[0] != "ALL"@[0]);
    assert("MAX"@.len() != "COUNT"@.len());
    assert("MAX"@.len() != "SAVE"@.len());
    assert("ALL"@.len() != "COUNT"@.len());
    assert("ALL"@.len() != "SAVE"@.len());
    assert("COUNT"@.len() != "SAVE"@.len());
}

/// The options after turning on those named among the upper-case items.
pub open spec fn with_returns(o: SearchOptions, items: Seq<Seq<char>>) -> SearchOptions {
    SearchOptions {
        return_min: o.return_min || items.contains("MIN"@),
        return_max: o.return_max || items.contains("MAX"@),
        return_all: o.return_all || items.contains("ALL"@),
        return_count: o.return_count || items.contains("COUNT"@),
        return_save: o.return_save || items.contains("SAVE"@),
    }
}

/// What reading RETURN options from `d0` to `d1` gives, starting from
/// options `o0`: no change, with nothing read, when the next byte is not
/// `(`; else the list as `status_list` reads it, each named option turned
/// on.
pub open spec fn return_opts_result(d0: AsyncDecoder, d1: AsyncDecoder, o0: SearchOptions, o1: SearchOptions, r: ImapResult<()>) -> bool {
    let s = d0.stream();
    if s.len() == 0 {
        r is Err
    } else if s[0] != 40 {
        r is Ok && o1 == o0 && d0.advanced(&d1, 0, true)
    } else {
        match status_list(s.skip(1)) {
            Some((it, k)) => r is Ok && o1 == with_returns(o0, it) && d0.advanced(&d1, k + 1, false),
            None => r is Err,
        }
    }
}

/// Reads SEARCH RETURN options `(MIN MAX ALL COUNT SAVE)`: each named
/// option (any case) is turned on, others are ignored; anything but `(` is
/// left unread.
pub fn parse_search_return_opts(conn: &mut Conn, options: &mut SearchOptions) -> (r: ImapResult<()>)
    requires
        old(conn).wf(),
    ensures
        final(conn).wf(),
        only_decoder_moved(*old(conn), *final(conn)),
        return_opts_result(old(conn).decoder, final(conn).decoder, *old(options), *final(options), r),
{
    let ghost d0 = conn.decoder;
    let ghost s = d0.stream();
    let ghost o0 = *options;
    let b = conn.decoder.peek_byte()?;
    let ghost dp = conn.decoder;
    proof {
        d0.lemma_advanced_pub(&dp, 0, true);
    }
    if b != 40u8 {
        return Ok(());
    }
    let _ = conn.decoder.read_byte();
    proof {
        d0.lemma_peek_then_read(&dp, &conn.decoder);
        d0.lemma_advanced_pub(&conn.decoder, 1, false);
        match status_list(s.skip(1)) {
            Some((it, k)) => {
                assert(Seq::<Seq<char>>::empty() + it =~= it);
            },
            None => {},
        }
    }
    let ghost mut j: nat = 1;
    let ghost mut pb: bool = false;
    let ghost mut seen: Seq<Seq<char>> = Seq::empty();
    loop
        invariant_except_break
            conn.wf(),
            only_decoder_moved(*old(conn), *conn),
            d0 == old(conn).decoder,
            d0.wf(),
            s == d0.stream(),
            s.len() > 0 && s[0] == 40,
            1 <= j <= s.len(),
            d0.advanced(&conn.decoder, j, pb),
            conn.decoder.stream() == s.skip(j as int),
            *options == with_returns(o0, seen),
            status_list(s.skip(1)) == match status_list(s.skip(j as int)) {
                Some((it, k)) => Some((seen + it, (k + j - 1) as nat)),
                None => None,
            },
        ensures
            conn.wf(),
            only_decoder_moved(*old(conn), *conn),
            d0 == old(conn).decoder,
            s == d0.stream(),
            s.len() > 0 && s[0] == 40,
            j >= 1,
            *options == with_returns(o0, seen),
            status_list(s.skip(1)) == Some((seen, (j - 1) as nat)),
            d0.advanced(&conn.decoder, j, false),
        decreases conn.decoder.stream().len(),
    {
        let ghost dc = conn.decoder;
        let ghost t = s.skip(j as int);
        let pk = conn.decoder.peek_byte();
        let ghost d1 = conn.decoder;
        let b = match pk {
            Ok(x) => x,
            Err(e) => {
                assert(t.len() == 0);
                return Err(e);
            },
        };
        proof {
            d0.lemma_chain_pub(&dc, &d1, j, pb, 0, true);
            dc.lemma_advanced_pub(&d1, 0, true);
            assert(d1.stream() =~= t);
        }
        if b == 41u8 || b == 32u8 {
            let _ = conn.decoder.read_byte();
            proof {
                d0.lemma_chain_pub(&d1, &conn.decoder, j, true, 1, false);
                assert(t.skip(1) =~= s.skip(j + 1 as int));
            }
            if b == 41u8 {
                proof {
                    j = j + 1;
                    assert(seen + Seq::<Seq<char>>::empty() =~= seen);
                }
                break;
            }
            proof {
                j = j + 1;
                pb = false;
            }
        } else {
            let ra = conn.decoder.read_atom();
            let ghost d2 = conn.decoder;
            let ghost n = span(t, ByteClass::Atom);
            proof {
                crate::codec::lemma_span(t, ByteClass::Atom);
            }
            let atom = match ra {
                Ok(a) => a,
                Err(e) => {
                    return Err(e);
                },
            };
            proof {
                d0.lemma_chain_pub(&d1, &d2, j, true, n, true);
                assert(t.skip(n as int) =~= s.skip((j + n) as int));
            }
            let ac = chars_of(atom.as_str());
            let u = upper_char_vec(&ac);
            let ghost item = upper_chars(latin1(t.take(n as int)));
            assert(u@ == item);
            let ghost before = seen;
            if word_is(&u, "MIN") {
                options.return_min = true;
            } else if word_is(&u, "MAX") {
                options.return_max = true;
            } else if word_is(&u, "ALL") {
                options.return_all = true;
            } else if word_is(&u, "COUNT") {
                options.return_count = true;
            } else if word_is(&u, "SAVE") {
                options.return_save = true;
            }
            proof {
                seen = seen.push(item);
                assert(seen[seen.len() - 1] == item);
                assert(seen.contains(item));
                assert forall|w: Seq<char>| #[trigger] seen.contains(w) <==> before.contains(w) || w == item by {
                    if seen.contains(w) {
                        let i = choose|i: int| 0 <= i < seen.len() && seen[i] == w;
                        if i < before.len() {
                            assert(before[i] == w);
                        }
                    }
                    if before.contains(w) {
                        let i = choose|i: int| 0 <= i < before.len() && before[i] == w;
                        assert(seen[i] == w);
                    }
                }
                lemma_return_names();
                assert(*options == with_returns(o0, seen));
                match status_list(t.skip(n as int)) {
                    Some((it, k)) => {
                        assert(before + (seq![item] + it) =~= seen + it);
                    },
                    None => {},
                }
                j = j + n;
                pb = true;
            }
        }
    }
    Ok(())
}

/// The readable bytes begin with CR or LF (left unread).
pub open spec fn at_line_end(d: AsyncDecoder) -> bool {
    d.stream().len() > 0 && (d.stream()[0] == 13 || d.stream()[0] == 10)
}

// ── What reading search keys does ──────────────────────────────────

/// One step of reading search keys, with the decoder states it passes
/// through: `peeked` after the peek at the key's first byte, `read` after
/// the key's atom, `sp` after the SP before an argument, `after` at the end
/// of the step.
pub enum SearchStep {
    /// An SP between keys.
    Space { after: AsyncDecoder },
    /// A key that takes no argument (an unknown key among them).
    Bare { peeked: AsyncDecoder, key: String, after: AsyncDecoder },
    /// A key and its astring argument.
    Text { peeked: AsyncDecoder, key: String, read: AsyncDecoder, sp: AsyncDecoder, value: String, after: AsyncDecoder },
    /// A key and its sequence-set argument.
    Seqs { peeked: AsyncDecoder, key: String, read: AsyncDecoder, sp: AsyncDecoder, value: String, after: AsyncDecoder },
    /// A key and its atom argument.
    Word { peeked: AsyncDecoder, key: String, read: AsyncDecoder, sp: AsyncDecoder, value: String, after: AsyncDecoder },
    /// A key and its number argument.
    Number { peeked: AsyncDecoder, key: String, read: AsyncDecoder, sp: AsyncDecoder, value: i64, after: AsyncDecoder },
    /// NOT: the one key that follows, read into `start`.
    Not {
        peeked: AsyncDecoder,
        key: String,
        read: AsyncDecoder,
        start: SearchCriteria,
        sub: Seq<SearchStep>,
        after: AsyncDecoder,
    },
    /// OR: the next key read into `start_a`, up to `mid`, and the key after
    /// it into `start_b`.
    Or {
        peeked: AsyncDecoder,
        key: String,
        read: AsyncDecoder,
        start_a: SearchCriteria,
        sub_a: Seq<SearchStep>,
        mid: AsyncDecoder,
        start_b: SearchCriteria,
        sub_b: Seq<SearchStep>,
        after: AsyncDecoder,
    },
}

/// The decoder state at the end of a step.
pub open spec fn step_after(s: SearchStep) -> AsyncDecoder {
    match s {
        SearchStep::Space { after } => after,
        SearchStep::Bare { after, .. } => after,
        SearchStep::Text { after, .. } => after,
        SearchStep::Seqs { after, .. } => after,
        SearchStep::Word { after, .. } => after,
        SearchStep::Number { after, .. } => after,
        SearchStep::Not { after, .. } => after,
        SearchStep::Or { after, .. } => after,
    }
}

/// Keys that take an astring.
pub open spec fn text_key(u: Seq<char>) -> bool {
    u == "FROM"@ || u == "TO"@ || u == "SUBJECT"@ || u == "BODY"@ || u == "TEXT"@ || u == "BEFORE"@
        || u == "SINCE"@ || u == "ON"@
}

/// Keys that take a sequence set.
pub open spec fn set_key(u: Seq<char>) -> bool {
    u == "UID"@ || u == "SEQNO"@
}

/// Keys that take an atom.
pub open spec fn word_key(u: Seq<char>) -> bool {
    u == "KEYWORD"@ || u == "UNKEYWORD"@
}

/// Keys that take a number.
pub open spec fn number_key(u: Seq<char>) -> bool {
    u == "SMALLER"@ || u == "LARGER"@
}

/// Keys that take no argument.
pub open spec fn bare_key(u: Seq<char>) -> bool {
    !text_key(u) && !set_key(u) && !word_key(u) && !number_key(u) && u != "NOT"@ && u != "OR"@
}

/// The key's atom is read from `d0`: its first byte is none of CR, LF, SP;
/// a peek, then the atom.
pub open spec fn key_read(d0: AsyncDecoder, peeked: AsyncDecoder, key: String, read: AsyncDecoder) -> bool {
    let s = d0.stream();
    &&& s.len() > 0
    &&& s[0] != 13 && s[0] != 10 && s[0] != 32
    &&& d0.peeked_to(&peeked)
    &&& run_result(&peeked, &read, Ok(key), ByteClass::Atom, "expected atom"@)
}

/// SP and then the argument's reader, from `read` to `after`.
pub open spec fn arg_read(kind: ByteClass, read: AsyncDecoder, sp: AsyncDecoder, value: String, after: AsyncDecoder) -> bool {
    &&& sp_result(&read, &sp, Ok(()))
    &&& match kind {
        ByteClass::AString => astring_result(&sp, &after, Ok(value), ByteClass::AString, "expected astring"@),
        ByteClass::NumSet => run_result(&sp, &after, Ok(value), ByteClass::NumSet, "expected sequence-set"@),
        _ => run_result(&sp, &after, Ok(value), ByteClass::Atom, "expected atom"@),
    }
}

/// Keys read up to the end of a line: the steps from `d0` to `end`, which
/// is at the end of the line, and the final peek at it, to `d1`.
pub open spec fn line_read(d0: AsyncDecoder, t: Seq<SearchStep>, end: AsyncDecoder, d1: AsyncDecoder) -> bool
    decreases t, 1nat,
{
    steps_from(d0, t, end) && at_line_end(end) && end.peeked_to(&d1)
}

/// Exactly one search key read from `d0` to `d1`: the steps are SPs and
/// then one key (with its argument, or its own operands).
pub open spec fn one_key_read(d0: AsyncDecoder, t: Seq<SearchStep>, d1: AsyncDecoder) -> bool
    decreases t, 1nat,
{
    &&& steps_from(d0, t, d1)
    &&& t.len() > 0
    &&& !(t[t.len() - 1] is Space)
    &&& forall|i: int| 0 <= i < t.len() - 1 ==> #[trigger] t[i] is Space
}

/// One step read from `d0`.
pub open spec fn step_read(d0: AsyncDecoder, s: SearchStep) -> bool
    decreases s, 0nat,
{
    match s {
        SearchStep::Space { after } => d0.stream().len() > 0 && d0.stream()[0] == 32 && d0.advanced_pub(&after, 1),
        SearchStep::Bare { peeked, key, after } => key_read(d0, peeked, key, after) && bare_key(upper_chars(key@)),
        SearchStep::Text { peeked, key, read, sp, value, after } => key_read(d0, peeked, key, read)
            && text_key(upper_chars(key@)) && arg_read(ByteClass::AString, read, sp, value, after),
        SearchStep::Seqs { peeked, key, read, sp, value, after } => key_read(d0, peeked, key, read)
            && set_key(upper_chars(key@)) && arg_read(ByteClass::NumSet, read, sp, value, after),
        SearchStep::Word { peeked, key, read, sp, value, after } => key_read(d0, peeked, key, read)
            && word_key(upper_chars(key@)) && arg_read(ByteClass::Atom, read, sp, value, after),
        SearchStep::Number { peeked, key, read, sp, value, after } => key_read(d0, peeked, key, read)
            && number_key(upper_chars(key@)) && sp_result(&read, &sp, Ok(())) && number64_result(
            &sp,
            &after,
            Ok(value),
        ),
        SearchStep::Not { peeked, key, read, start, sub, after } => key_read(d0, peeked, key, read)
            && upper_chars(key@) == "NOT"@ && is_blank_criteria(start) && one_key_read(read, sub, after),
        SearchStep::Or { peeked, key, read, start_a, sub_a, mid, start_b, sub_b, after } => key_read(
            d0,
            peeked,
            key,
            read,
        ) && upper_chars(key@) == "OR"@ && is_blank_criteria(start_a) && is_blank_criteria(start_b)
            && one_key_read(read, sub_a, mid) && one_key_read(mid, sub_b, after),
    }
}

/// The steps, read one after another from `d0`, end at `d1`.
pub open spec fn steps_from(d0: AsyncDecoder, t: Seq<SearchStep>, d1: AsyncDecoder) -> bool
    decreases t, 0nat,
{
    if t.len() == 0 {
        d1 == d0
    } else {
        step_read(d0, t[0]) && steps_from(step_after(t[0]), t.skip(1), d1)
    }
}

/// What a key without argument does to the criteria.
pub open spec fn bare_effect(c: SearchCriteria, u: Seq<char>) -> SearchCriteria {
    if u == "ALL"@ {
        SearchCriteria { all: true, ..c }
    } else if u == "NEW"@ {
        SearchCriteria { new: Some(true), ..c }
    } else if u == "OLD"@ {
        SearchCriteria { old: Some(true), ..c }
    } else if u == "RECENT"@ {
        SearchCriteria { recent: Some(true), ..c }
    } else if u == "SEEN"@ {
        SearchCriteria { seen: Some(true), ..c }
    } else if u == "UNSEEN"@ {
        SearchCriteria { unseen: true, ..c }
    } else if u == "ANSWERED"@ {
        SearchCriteria { answered: Some(true), ..c }
    } else if u == "UNANSWERED"@ {
        SearchCriteria { unanswered: true, ..c }
    } else if u == "DELETED"@ {
        SearchCriteria { deleted: Some(true), ..c }
    } else if u == "UNDELETED"@ {
        SearchCriteria { deleted: Some(false), ..c }
    } else if u == "DRAFT"@ {
        SearchCriteria { draft: Some(true), ..c }
    } else if u == "UNDRAFT"@ {
        SearchCriteria { undraft: true, ..c }
    } else if u == "FLAGGED"@ {
        SearchCriteria { flagged: Some(true), ..c }
    } else if u == "UNFLAGGED"@ {
        SearchCriteria { unflagged: true, ..c }
    } else {
        c
    }
}

/// What a key with an astring argument does to the criteria (ON reads its
/// argument and does nothing).
pub open spec fn text_effect(c: SearchCriteria, u: Seq<char>, value: String) -> SearchCriteria {
    if u == "FROM"@ {
        SearchCriteria { from: Some(value), ..c }
    } else if u == "TO"@ {
        SearchCriteria { to: Some(value), ..c }
    } else if u == "SUBJECT"@ {
        SearchCriteria { subject: Some(value), ..c }
    } else if u == "BODY"@ {
        SearchCriteria { body: Some(value), ..c }
    } else if u == "TEXT"@ {
        SearchCriteria { text: Some(value), ..c }
    } else if u == "BEFORE"@ {
        SearchCriteria { before: Some(value), ..c }
    } else if u == "SINCE"@ {
        SearchCriteria { since: Some(value), ..c }
    } else {
        c
    }
}

/// What one step does to the criteria.
pub open spec fn key_effect(c: SearchCriteria, s: SearchStep) -> SearchCriteria
    decreases s, 0nat,
{
    match s {
        SearchStep::Space { .. } => c,
        SearchStep::Bare { key, .. } => bare_effect(c, upper_chars(key@)),
        SearchStep::Text { key, value, .. } => text_effect(c, upper_chars(key@), value),
        SearchStep::Seqs { key, value, .. } => if upper_chars(key@) == "UID"@ {
            SearchCriteria { uid_set: Some(value), ..c }
        } else {
            SearchCriteria { seq_set: Some(value), ..c }
        },
        SearchStep::Word { key, value, .. } => if upper_chars(key@) == "KEYWORD"@ {
            SearchCriteria { keyword: Some(value), ..c }
        } else {
            SearchCriteria { unkeyword: Some(value), ..c }
        },
        SearchStep::Number { key, value, .. } => if upper_chars(key@) == "SMALLER"@ {
            SearchCriteria { smaller: Some(value as u64), ..c }
        } else {
            SearchCriteria { larger: Some(value as u64), ..c }
        },
        SearchStep::Not { start, sub, .. } => SearchCriteria { not: Some(Box::new(apply_steps(start, sub))), ..c },
        SearchStep::Or { start_a, sub_a, start_b, sub_b, .. } => SearchCriteria {
            or: Some((Box::new(apply_steps(start_a, sub_a)), Box::new(apply_steps(start_b, sub_b)))),
            ..c
        },
    }
}

/// Law: the message-flag keys of SEARCH select what RFC 3501 gives them:
/// DELETED the messages with `\Deleted` (`deleted == Some(true)`),
/// UNDELETED those without it (`Some(false)`); SEEN, ANSWERED, FLAGGED,
/// DRAFT, RECENT, NEW and OLD ask for their flag or state, UNSEEN,
/// UNANSWERED, UNFLAGGED and UNDRAFT for its absence; ALL matches every
/// message. Each key changes nothing else in the criteria, in any case.
pub proof fn law_flag_keys(c: SearchCriteria, peeked: AsyncDecoder, key: String, after: AsyncDecoder)
    ensures
        ({
            let u = upper_chars(key@);
            let r = key_effect(c, SearchStep::Bare { peeked, key, after });
            &&& u == "DELETED"@ ==> r == (SearchCriteria { deleted: Some(true), ..c })
            &&& u == "UNDELETED"@ ==> r == (SearchCriteria { deleted: Some(false), ..c })
            &&& u == "SEEN"@ ==> r == (SearchCriteria { seen: Some(true), ..c })
            &&& u == "UNSEEN"@ ==> r == (SearchCriteria { unseen: true, ..c })
            &&& u == "ANSWERED"@ ==> r == (SearchCriteria { answered: Some(true), ..c })
            &&& u == "UNANSWERED"@ ==> r == (SearchCriteria { unanswered: true, ..c })
            &&& u == "FLAGGED"@ ==> r == (SearchCriteria { flagged: Some(true), ..c })
            &&& u == "UNFLAGGED"@ ==> r == (SearchCriteria { unflagged: true, ..c })
            &&& u == "DRAFT"@ ==> r == (SearchCriteria { draft: Some(true), ..c })
            &&& u == "UNDRAFT"@ ==> r == (SearchCriteria { undraft: true, ..c })
            &&& u == "RECENT"@ ==> r == (SearchCriteria { recent: Some(true), ..c })
            &&& u == "NEW"@ ==> r == (SearchCriteria { new: Some(true), ..c })
            &&& u == "OLD"@ ==> r == (SearchCriteria { old: Some(true), ..c })
            &&& u == "ALL"@ ==> r == (SearchCriteria { all: true, ..c })
        }),
{
    reveal_strlit("ALL");
    reveal_strlit("NEW");
    reveal_strlit("OLD");
    reveal_strlit("RECENT");
    reveal_strlit("SEEN");
    reveal_strlit("UNSEEN");
    reveal_strlit("ANSWERED");
    reveal_strlit("UNANSWERED");
    reveal_strlit("DELETED");
    reveal_strlit("UNDELETED");
    reveal_strlit("DRAFT");
    reveal_strlit("UNDRAFT");
    reveal_strlit("FLAGGED");
    reveal_strlit("UNFLAGGED");
    assert("ALL"@.len() == 3 && "NEW"@.len() == 3 && "OLD"@.len() == 3);
    assert("SEEN"@.len() == 4 && "DRAFT"@.len() == 5);
    assert("RECENT"@.len() == 6 && "UNSEEN"@.len() == 6);
    assert("DELETED"@.len() == 7 && "UNDRAFT"@.len() == 7 && "FLAGGED"@.len() == 7);
    assert("ANSWERED"@.len() == 8 && "UNANSWERED"@.len() == 10);
    assert("UNDELETED"@.len() == 9 && "UNFLAGGED"@.len() == 9);
    assert("ALL"@[0] != "NEW"@[0] && "ALL"@[0] != "OLD"@[0] && "NEW"@[0] != "OLD"@[0]);
    assert("RECENT"@[0] != "UNSEEN"@[0]);
    assert("DELETED"@[0] != "UNDRAFT"@[0] && "DELETED"@[0] != "FLAGGED"@[0] && "UNDRAFT"@[0] != "FLAGGED"@[0]);
    assert("UNDELETED"@[2] != "UNFLAGGED"@[2]);
}

/// Law: in any criteria, DELETED and UNDELETED ask for opposite values of
/// the `\Deleted` flag.
pub proof fn law_deleted_keys_opposite(c: SearchCriteria, p1: AsyncDecoder, k1: String, a1: AsyncDecoder, p2: AsyncDecoder, k2: String, a2: AsyncDecoder)
    requires
        upper_chars(k1@) == "DELETED"@,
        upper_chars(k2@) == "UNDELETED"@,
    ensures
        key_effect(c, SearchStep::Bare { peeked: p1, key: k1, after: a1 }).deleted == Some(true),
        key_effect(c, SearchStep::Bare { peeked: p2, key: k2, after: a2 }).deleted == Some(false),
{
    law_flag_keys(c, p1, k1, a1);
    law_flag_keys(c, p2, k2, a2);
}

/// A step read after the others extends the steps.
proof fn lemma_steps_push(d0: AsyncDecoder, t: Seq<SearchStep>, dm: AsyncDecoder, s: SearchStep)
    requires
        steps_from(d0, t, dm),
        step_read(dm, s),
    ensures
        steps_from(d0, t.push(s), step_after(s)),
    decreases t.len(),
{
    if t.len() == 0 {
        assert(t.push(s).skip(1) =~= Seq::<SearchStep>::empty());
        assert(t.push(s)[0] == s);
        assert(steps_from(step_after(s), Seq::<SearchStep>::empty(), step_after(s)));
    } else {
        lemma_steps_push(step_after(t[0]), t.skip(1), dm, s);
        assert(t.push(s).skip(1) =~= t.skip(1).push(s));
        assert(t.push(s)[0] == t[0]);
    }
}

/// Applying a step after the others.
proof fn lemma_apply_push(c: SearchCriteria, t: Seq<SearchStep>, s: SearchStep)
    ensures
        apply_steps(c, t.push(s)) == key_effect(apply_steps(c, t), s),
    decreases t.len(),
{
    if t.len() == 0 {
        assert(t.push(s).skip(1) =~= Seq::<SearchStep>::empty());
        assert(t.push(s)[0] == s);
        assert(apply_steps(key_effect(c, s), Seq::<SearchStep>::empty()) == key_effect(c, s));
    } else {
        lemma_apply_push(key_effect(c, t[0]), t.skip(1), s);
        assert(t.push(s).skip(1) =~= t.skip(1).push(s));
        assert(t.push(s)[0] == t[0]);
    }
}

/// The peek, the key and the decoder after the key's atom, of a step that
/// reads a key.
pub open spec fn step_key(s: SearchStep) -> (AsyncDecoder, String, AsyncDecoder) {
    match s {
        SearchStep::Space { after } => (after, vstd::pervasive::arbitrary(), after),
        SearchStep::Bare { peeked, key, after } => (peeked, key, after),
        SearchStep::Text { peeked, key, read, .. } => (peeked, key, read),
        SearchStep::Seqs { peeked, key, read, .. } => (peeked, key, read),
        SearchStep::Word { peeked, key, read, .. } => (peeked, key, read),
        SearchStep::Number { peeked, key, read, .. } => (peeked, key, read),
        SearchStep::Not { peeked, key, read, .. } => (peeked, key, read),
        SearchStep::Or { peeked, key, read, .. } => (peeked, key, read),
    }
}

/// The kinds of keys are told apart by the key.
proof fn lemma_key_classes(u: Seq<char>)
    ensures
        text_key(u) ==> !set_key(u) && !word_key(u) && !number_key(u) && u != "NOT"@ && u != "OR"@,
        set_key(u) ==> !word_key(u) && !number_key(u) && u != "NOT"@ && u != "OR"@,
        word_key(u) ==> !number_key(u) && u != "NOT"@ && u != "OR"@,
        number_key(u) ==> u != "NOT"@ && u != "OR"@,
        u == "NOT"@ ==> u != "OR"@,
{
    reveal_strlit("FROM");
    reveal_strlit("TO");
    reveal_strlit("SUBJECT");
    reveal_strlit("BODY");
    reveal_strlit("TEXT");
    reveal_strlit("BEFORE");
    reveal_strlit("SINCE");
    reveal_strlit("ON");
    reveal_strlit("UID");
    reveal_strlit("SEQNO");
    reveal_strlit("KEYWORD");
    reveal_strlit("UNKEYWORD");
    reveal_strlit("SMALLER");
    reveal_strlit("LARGER");
    reveal_strlit("NOT");
    reveal_strlit("OR");
    assert("FROM"@.len() == 4);
    assert("TO"@.len() == 2);
    assert("SUBJECT"@.len() == 7);
    assert("BODY"@.len() == 4);
    assert("TEXT"@.len() == 4);
    assert("BEFORE"@.len() == 6);
    assert("SINCE"@.len() == 5);
    assert("ON"@.len() == 2);
    assert("UID"@.len() == 3);
    assert("SEQNO"@.len() == 5);
    assert("KEYWORD"@.len() == 7);
    assert("UNKEYWORD"@.len() == 9);
    assert("SMALLER"@.len() == 7);
    assert("LARGER"@.len() == 6);
    assert("NOT"@.len() == 3);
    assert("OR"@.len() == 2);
    assert("TO"@[0] != "OR"@[0]);
    assert("ON"@[1] != "OR"@[1]);
    assert("UID"@[0] != "NOT"@[0]);
    assert("SINCE"@[1] != "SEQNO"@[1]);
    assert("BEFORE"@[0] != "LARGER"@[0]);
    assert("SUBJECT"@[0] != "KEYWORD"@[0]);
    assert("SUBJECT"@[1] != "SMALLER"@[1]);
    assert("KEYWORD"@[0] != "SMALLER"@[0]);
}

/// A key read from one decoder: one peek, one key, one decoder after it.
proof fn lemma_key_read_det(
    d0: AsyncDecoder,
    p1: AsyncDecoder,
    k1: String,
    r1: AsyncDecoder,
    p2: AsyncDecoder,
    k2: String,
    r2: AsyncDecoder,
)
    requires
        key_read(d0, p1, k1, r1),
        key_read(d0, p2, k2, r2),
    ensures
        p1 == p2,
        r1 == r2,
        k1@ == k2@,
{
    d0.lemma_advanced_det(&p1, &p2, 0, true);
    lemma_run_det(&p1, &r1, Ok(k1), &r2, Ok(k2), ByteClass::Atom, "expected atom"@);
}

/// An argument read from one decoder: one outcome.
proof fn lemma_arg_det(kind: ByteClass, read: AsyncDecoder, sp1: AsyncDecoder, v1: String, a1: AsyncDecoder, sp2: AsyncDecoder, v2: String, a2: AsyncDecoder)
    requires
        arg_read(kind, read, sp1, v1, a1),
        arg_read(kind, read, sp2, v2, a2),
    ensures
        a1 == a2,
{
    lemma_sp_det(&read, &sp1, Ok(()), &sp2, Ok(()));
    match kind {
        ByteClass::AString => {
            lemma_astring_det(&sp1, &a1, Ok(v1), &a2, Ok(v2), ByteClass::AString, "expected astring"@);
        },
        ByteClass::NumSet => {
            lemma_run_det(&sp1, &a1, Ok(v1), &a2, Ok(v2), ByteClass::NumSet, "expected sequence-set"@);
        },
        _ => {
            lemma_run_det(&sp1, &a1, Ok(v1), &a2, Ok(v2), ByteClass::Atom, "expected atom"@);
        },
    }
}

/// A step read from one decoder ends at one decoder.
proof fn lemma_step_det(d: AsyncDecoder, s1: SearchStep, s2: SearchStep)
    requires
        step_read(d, s1),
        step_read(d, s2),
    ensures
        step_after(s1) == step_after(s2),
    decreases s1, 0nat,
{
    if d.stream()[0] == 32 {
        match (s1, s2) {
            (SearchStep::Space { after: a1 }, SearchStep::Space { after: a2 }) => {
                d.lemma_advanced_det(&a1, &a2, 1, false);
            },
            _ => {},
        }
    } else {
        let (p1, k1, r1) = step_key(s1);
        let (p2, k2, r2) = step_key(s2);
        assert(key_read(d, p1, k1, r1));
        assert(key_read(d, p2, k2, r2));
        lemma_key_read_det(d, p1, k1, r1, p2, k2, r2);
        lemma_key_classes(upper_chars(k1@));
        match (s1, s2) {
            (SearchStep::Text { sp: sp1, value: v1, after: a1, .. }, SearchStep::Text { sp: sp2, value: v2, after: a2, .. }) => {
                lemma_arg_det(ByteClass::AString, r1, sp1, v1, a1, sp2, v2, a2);
            },
            (SearchStep::Seqs { sp: sp1, value: v1, after: a1, .. }, SearchStep::Seqs { sp: sp2, value: v2, after: a2, .. }) => {
                lemma_arg_det(ByteClass::NumSet, r1, sp1, v1, a1, sp2, v2, a2);
            },
            (SearchStep::Word { sp: sp1, value: v1, after: a1, .. }, SearchStep::Word { sp: sp2, value: v2, after: a2, .. }) => {
                lemma_arg_det(ByteClass::Atom, r1, sp1, v1, a1, sp2, v2, a2);
            },
            (SearchStep::Number { sp: sp1, value: v1, after: a1, .. }, SearchStep::Number { sp: sp2, value: v2, after: a2, .. }) => {
                lemma_sp_det(&r1, &sp1, Ok(()), &sp2, Ok(()));
                lemma_number64_det(&sp1, &a1, Ok(v1), &a2, Ok(v2));
            },
            (SearchStep::Not { sub: t1, after: a1, .. }, SearchStep::Not { sub: t2, after: a2, .. }) => {
                lemma_one_key_det(r1, t1, a1, t2, a2);
            },
            (
                SearchStep::Or { sub_a: ta1, mid: m1, sub_b: tb1, after: a1, .. },
                SearchStep::Or { sub_a: ta2, mid: m2, sub_b: tb2, after: a2, .. },
            ) => {
                lemma_one_key_det(r1, ta1, m1, ta2, m2);
                lemma_one_key_det(m1, tb1, a1, tb2, a2);
            },
            _ => {},
        }
    }
}

/// One key read from one decoder ends at one decoder.
proof fn lemma_one_key_det(d: AsyncDecoder, t1: Seq<SearchStep>, e1: AsyncDecoder, t2: Seq<SearchStep>, e2: AsyncDecoder)
    requires
        one_key_read(d, t1, e1),
        one_key_read(d, t2, e2),
    ensures
        e1 == e2,
    decreases t1, 1nat,
{
    assert(step_read(d, t1[0]));
    assert(step_read(d, t2[0]));
    lemma_step_det(d, t1[0], t2[0]);
    lemma_space_or_key(d, t1[0]);
    lemma_space_or_key(d, t2[0]);
    if t1.len() == 1 || t2.len() == 1 {
        if t1.len() > 1 {
            assert(t1[0] is Space);
        }
        if t2.len() > 1 {
            assert(t2[0] is Space);
        }
        assert(t1.skip(1).len() == 0);
        assert(t2.skip(1).len() == 0);
    } else {
        assert(t1[0] is Space);
        lemma_one_key_tail(d, t1, e1);
        lemma_one_key_tail(d, t2, e2);
        lemma_one_key_det(step_after(t1[0]), t1.skip(1), e1, t2.skip(1), e2);
    }
}

/// A step is an SP exactly when the next byte is SP.
proof fn lemma_space_or_key(d: AsyncDecoder, st: SearchStep)
    requires
        step_read(d, st),
    ensures
        d.stream().len() > 0,
        (st is Space) == (d.stream()[0] == 32),
{
    if !(st is Space) {
        let (p, k, r) = step_key(st);
        assert(key_read(d, p, k, r));
    }
}

/// After a leading SP, what is left of one key read is one key read.
proof fn lemma_one_key_tail(d: AsyncDecoder, t: Seq<SearchStep>, e: AsyncDecoder)
    requires
        one_key_read(d, t, e),
        t.len() > 1,
    ensures
        t[0] is Space,
        one_key_read(step_after(t[0]), t.skip(1), e),
{
    let u = t.skip(1);
    assert(t[0] is Space);
    assert(u[u.len() - 1] == t[t.len() - 1]);
    assert forall|i: int| 0 <= i < u.len() - 1 implies #[trigger] u[i] is Space by {
        assert(u[i] == t[i + 1]);
    }
}

/// Where one key is being read at `c` after the SPs `t`, any reading of
/// one key reads a step from `c`.
proof fn lemma_one_key_at(d: AsyncDecoder, t: Seq<SearchStep>, c: AsyncDecoder, tw: Seq<SearchStep>, ew: AsyncDecoder)
    requires
        steps_from(d, t, c),
        forall|i: int| 0 <= i < t.len() ==> #[trigger] t[i] is Space,
        one_key_read(d, tw, ew),
    ensures
        exists|st: SearchStep| #[trigger] step_read(c, st),
    decreases t.len(),
{
    if t.len() == 0 {
        assert(step_read(c, tw[0]));
    } else {
        assert(t[0] is Space);
        assert(step_read(d, t[0]));
        assert(step_read(d, tw[0]));
        lemma_space_or_key(d, t[0]);
        lemma_space_or_key(d, tw[0]);
        lemma_step_det(d, t[0], tw[0]);
        if tw.len() == 1 {
            assert(!(tw[0] is Space));
        }
        lemma_one_key_tail(d, tw, ew);
        assert forall|i: int| 0 <= i < t.skip(1).len() implies #[trigger] t.skip(1)[i] is Space by {
            assert(t.skip(1)[i] == t[i + 1]);
        }
        lemma_one_key_at(step_after(t[0]), t.skip(1), c, tw.skip(1), ew);
    }
}

/// Keys read from one decoder up to the end of the line end at one
/// decoder.
proof fn lemma_lines_det(d: AsyncDecoder, t1: Seq<SearchStep>, e1: AsyncDecoder, t2: Seq<SearchStep>, e2: AsyncDecoder)
    requires
        steps_from(d, t1, e1),
        at_line_end(e1),
        steps_from(d, t2, e2),
        at_line_end(e2),
    ensures
        e1 == e2,
    decreases t1, 1nat,
{
    if t1.len() == 0 {
        if t2.len() > 0 {
            assert(step_read(d, t2[0]));
        }
    } else if t2.len() == 0 {
        assert(step_read(d, t1[0]));
    } else {
        lemma_step_det(d, t1[0], t2[0]);
        lemma_lines_det(step_after(t1[0]), t1.skip(1), e1, t2.skip(1), e2);
    }
}

/// Where keys are being read at `c` after the steps `t`, any reading up to
/// the end of the line ends at `c` or reads a step from `c`.
proof fn lemma_steps_at(d: AsyncDecoder, t: Seq<SearchStep>, c: AsyncDecoder, tw: Seq<SearchStep>, ew: AsyncDecoder)
    requires
        steps_from(d, t, c),
        steps_from(d, tw, ew),
        at_line_end(ew),
    ensures
        at_line_end(c) || exists|st: SearchStep| #[trigger] step_read(c, st),
    decreases t.len(),
{
    if t.len() == 0 {
        if tw.len() > 0 {
            assert(step_read(c, tw[0]));
        }
    } else if tw.len() == 0 {
        assert(step_read(d, t[0]));
    } else {
        lemma_step_det(d, t[0], tw[0]);
        lemma_steps_at(step_after(t[0]), t.skip(1), c, tw.skip(1), ew);
    }
}

/// A step read where a key was read reads the same key, to the same
/// decoder.
proof fn lemma_keyed_step(d0: AsyncDecoder, peeked: AsyncDecoder, key: String, read: AsyncDecoder, st: SearchStep)
    requires
        key_read(d0, peeked, key, read),
        step_read(d0, st),
    ensures
        !(st is Space),
        step_key(st).2 == read,
        upper_chars(step_key(st).1@) == upper_chars(key@),
        key_read(d0, step_key(st).0, step_key(st).1, step_key(st).2),
{
    let (p2, k2, r2) = step_key(st);
    assert(key_read(d0, p2, k2, r2));
    lemma_key_read_det(d0, peeked, key, read, p2, k2, r2);
}

/// Keys can be read from `d0` up to the end of the line.
pub open spec fn keys_ok(d0: AsyncDecoder) -> bool {
    exists|t: Seq<SearchStep>, end: AsyncDecoder, d1: AsyncDecoder| #[trigger] line_read(d0, t, end, d1)
}

/// A step can be read from `d0`.
pub open spec fn key_step_ok(d0: AsyncDecoder) -> bool {
    exists|st: SearchStep| #[trigger] step_read(d0, st)
}

/// The keys without argument are none of the others.
proof fn lemma_bare_keys()
    ensures
        bare_key("ALL"@) && bare_key("NEW"@) && bare_key("OLD"@) && bare_key("RECENT"@),
        bare_key("SEEN"@) && bare_key("UNSEEN"@) && bare_key("ANSWERED"@) && bare_key("UNANSWERED"@),
        bare_key("DELETED"@) && bare_key("UNDELETED"@) && bare_key("DRAFT"@) && bare_key("UNDRAFT"@),
        bare_key("FLAGGED"@) && bare_key("UNFLAGGED"@),
{
    reveal_strlit("ALL");
    reveal_strlit("NEW");
    reveal_strlit("OLD");
    reveal_strlit("RECENT");
    reveal_strlit("SEEN");
    reveal_strlit("UNSEEN");
    reveal_strlit("ANSWERED");
    reveal_strlit("UNANSWERED");
    reveal_strlit("DELETED");
    reveal_strlit("UNDELETED");
    reveal_strlit("DRAFT");
    reveal_strlit("UNDRAFT");
    reveal_strlit("FLAGGED");
    reveal_strlit("UNFLAGGED");
    reveal_strlit("FROM");
    reveal_strlit("TO");
    reveal_strlit("SUBJECT");
    reveal_strlit("BODY");
    reveal_strlit("TEXT");
    reveal_strlit("BEFORE");
    reveal_strlit("SINCE");
    reveal_strlit("ON");
    reveal_strlit("UID");
    reveal_strlit("SEQNO");
    reveal_strlit("KEYWORD");
    reveal_strlit("UNKEYWORD");
    reveal_strlit("SMALLER");
    reveal_strlit("LARGER");
    reveal_strlit("NOT");
    reveal_strlit("OR");
    assert("ALL"@.len() == 3);
    assert("NEW"@.len() == 3);
    assert("OLD"@.len() == 3);
    assert("RECENT"@.len() == 6);
    assert("SEEN"@.len() == 4);
    assert("UNSEEN"@.len() == 6);
    assert("ANSWERED"@.len() == 8);
    assert("UNANSWERED"@.len() == 10);
    assert("DELETED"@.len() == 7);
    assert("UNDELETED"@.len() == 9);
    assert("DRAFT"@.len() == 5);
    assert("UNDRAFT"@.len() == 7);
    assert("FLAGGED"@.len() == 7);
    assert("UNFLAGGED"@.len() == 9);
    assert("FROM"@.len() == 4);
    assert("TO"@.len() == 2);
    assert("SUBJECT"@.len() == 7);
    assert("BODY"@.len() == 4);
    assert("TEXT"@.len() == 4);
    assert("BEFORE"@.len() == 6);
    assert("SINCE"@.len() == 5);
    assert("ON"@.len() == 2);
    assert("UID"@.len() == 3);
    assert("SEQNO"@.len() == 5);
    assert("KEYWORD"@.len() == 7);
    assert("UNKEYWORD"@.len() == 9);
    assert("SMALLER"@.len() == 7);
    assert("LARGER"@.len() == 6);
    assert("NOT"@.len() == 3);
    assert("OR"@.len() == 2);
    assert("ALL"@[0] != "UID"@[0]);
    assert("ALL"@[0] != "NOT"@[0]);
    assert("NEW"@[0] != "UID"@[0]);
    assert("NEW"@[1] != "NOT"@[1]);
    assert("OLD"@[0] != "UID"@[0]);
    assert("OLD"@[0] != "NOT"@[0]);
    assert("RECENT"@[0] != "BEFORE"@[0]);
    assert("RECENT"@[0] != "LARGER"@[0]);
    assert("SEEN"@[0] != "FROM"@[0]);
    assert("SEEN"@[0] != "BODY"@[0]);
    assert("SEEN"@[0] != "TEXT"@[0]);
    assert("UNSEEN"@[0] != "BEFORE"@[0]);
    assert("UNSEEN"@[0] != "LARGER"@[0]);
    assert("DELETED"@[0] != "SUBJECT"@[0]);
    assert("DELETED"@[0] != "KEYWORD"@[0]);
    assert("DELETED"@[0] != "SMALLER"@[0]);
    assert("UNDELETED"@[2] != "UNKEYWORD"@[2]);
    assert("DRAFT"@[0] != "SINCE"@[0]);
    assert("DRAFT"@[0] != "SEQNO"@[0]);
    assert("UNDRAFT"@[0] != "SUBJECT"@[0]);
    assert("UNDRAFT"@[0] != "KEYWORD"@[0]);
    assert("UNDRAFT"@[0] != "SMALLER"@[0]);
    assert("FLAGGED"@[0] != "SUBJECT"@[0]);
    assert("FLAGGED"@[0] != "KEYWORD"@[0]);
    assert("FLAGGED"@[0] != "SMALLER"@[0]);
    assert("UNFLAGGED"@[2] != "UNKEYWORD"@[2]);
}

/// The criteria after each step in turn.
pub open spec fn apply_steps(c: SearchCriteria, t: Seq<SearchStep>) -> SearchCriteria
    decreases t, 1nat,
{
    if t.len() == 0 {
        c
    } else {
        apply_steps(key_effect(c, t[0]), t.skip(1))
    }
}

/// Reading search keys from `d0` up to the end of the line (peeked at, in
/// `d1`) turns criteria `c0` into `c1`.
pub open spec fn criteria_read(d0: AsyncDecoder, d1: AsyncDecoder, c0: SearchCriteria, c1: SearchCriteria) -> bool {
    exists|t: Seq<SearchStep>, end: AsyncDecoder| #[trigger] line_read(d0, t, end, d1) && c1 == apply_steps(c0, t)
}

/// Reads search keys up to the end of the line (CR or LF, left unread),
/// setting the criteria. Keys are matched in any case; a key's argument
/// follows SP. NOT reads the one key that follows as its operand, OR the
/// next two keys. Unknown keys are ignored.
pub fn parse_search_criteria(conn: &mut Conn, criteria: &mut SearchCriteria) -> (r: ImapResult<()>)
    requires
        old(conn).wf(),
    ensures
        final(conn).wf(),
        only_decoder_moved(*old(conn), *final(conn)),
        r is Ok <==> keys_ok(old(conn).decoder),
        r is Ok ==> criteria_read(old(conn).decoder, final(conn).decoder, *old(criteria), *final(criteria)),
        r is Ok ==> at_line_end(final(conn).decoder),
        r is Ok ==> final(conn).decoder.stream().len() <= old(conn).decoder.stream().len(),
    decreases old(conn).decoder.stream().len(), 1nat,
{
    let ghost mut t: Seq<SearchStep> = Seq::empty();
    loop
        invariant_except_break
            steps_from(old(conn).decoder, t, conn.decoder),
            *criteria == apply_steps(*old(criteria), t),
        invariant
            conn.wf(),
            only_decoder_moved(*old(conn), *conn),
            conn.decoder.stream().len() <= old(conn).decoder.stream().len(),
        ensures
            conn.wf(),
            only_decoder_moved(*old(conn), *conn),
            at_line_end(conn.decoder),
            conn.decoder.stream().len() <= old(conn).decoder.stream().len(),
            criteria_read(old(conn).decoder, conn.decoder, *old(criteria), *criteria),
        decreases conn.decoder.stream().len(),
    {
        let ghost d0 = conn.decoder;
        let b = match conn.decoder.peek_byte() {
            Ok(x) => x,
            Err(e) => {
                proof {
                    if keys_ok(old(conn).decoder) {
                        let (tw, ew, xw) = choose|t: Seq<SearchStep>, end: AsyncDecoder, d1: AsyncDecoder|
                            #[trigger] line_read(old(conn).decoder, t, end, d1);
                        lemma_steps_at(old(conn).decoder, t, d0, tw, ew);
                    }
                }
                return Err(e);
            },
        };
        let ghost d1 = conn.decoder;
        proof {
            d0.lemma_advanced_pub(&d1, 0, true);
        }
        if b == 13u8 || b == 10u8 {
            assert(line_read(old(conn).decoder, t, d0, d1));
            break;
        }
        if b == 32u8 {
            let _ = conn.decoder.read_byte();
            proof {
                d1.lemma_advanced_pub(&conn.decoder, 1, false);
                d0.lemma_peek_then_read(&d1, &conn.decoder);
                let st = SearchStep::Space { after: conn.decoder };
                assert(step_read(d0, st));
                lemma_steps_push(old(conn).decoder, t, d0, st);
                lemma_apply_push(*old(criteria), t, st);
                t = t.push(st);
            }
            continue;
        }
        let ra = conn.decoder.read_atom();
        let ghost dr = conn.decoder;
        let key = match ra {
            Ok(k) => k,
            Err(e) => {
                proof {
                    if keys_ok(old(conn).decoder) {
                        let (tw, ew, xw) = choose|t: Seq<SearchStep>, end: AsyncDecoder, d1: AsyncDecoder|
                            #[trigger] line_read(old(conn).decoder, t, end, d1);
                        lemma_steps_at(old(conn).decoder, t, d0, tw, ew);
                        let st = choose|st: SearchStep| #[trigger] step_read(d0, st);
                        let (p2, k2, r2) = step_key(st);
                        assert(key_read(d0, p2, k2, r2));
                        d0.lemma_advanced_det(&d1, &p2, 0, true);
                        lemma_run_det(&d1, &dr, ra, &r2, Ok(k2), ByteClass::Atom, "expected atom"@);
                    }
                }
                return Err(e);
            },
        };
        proof {
            let s = d1.stream();
            crate::codec::lemma_span(s, ByteClass::Atom);
            d1.lemma_advanced_pub(&conn.decoder, span(s, ByteClass::Atom), true);
            assert(key_read(d0, d1, key, conn.decoder));
        }
        let kc = chars_of(key.as_str());
        let u = upper_char_vec(&kc);
        let ghost c_before = *criteria;
        let ghost dk = conn.decoder;
        match apply_search_key(conn, criteria, &u, Ghost(d0), Ghost(d1), Ghost(key)) {
            Ok(()) => {},
            Err(e) => {
                proof {
                    if keys_ok(old(conn).decoder) {
                        let (tw, ew, xw) = choose|t: Seq<SearchStep>, end: AsyncDecoder, d1: AsyncDecoder|
                            #[trigger] line_read(old(conn).decoder, t, end, d1);
                        lemma_steps_at(old(conn).decoder, t, d0, tw, ew);
                    }
                }
                return Err(e);
            },
        }
        proof {
            let st = choose|st: SearchStep|
                #![trigger step_read(d0, st)]
                step_read(d0, st) && step_after(st) == conn.decoder && *criteria == key_effect(c_before, st);
            assert(step_read(d0, st));
            lemma_steps_push(old(conn).decoder, t, d0, st);
            lemma_apply_push(*old(criteria), t, st);
            t = t.push(st);
        }
    }
    Ok(())
}

/// One key can be read from `d0`.
pub open spec fn one_key_ok(d0: AsyncDecoder) -> bool {
    exists|t: Seq<SearchStep>, d1: AsyncDecoder| #[trigger] one_key_read(d0, t, d1)
}

/// Reading one key from `d0` to `d1` turns criteria `c0` into `c1`.
pub open spec fn one_key_done(d0: AsyncDecoder, d1: AsyncDecoder, c0: SearchCriteria, c1: SearchCriteria) -> bool {
    exists|t: Seq<SearchStep>| #[trigger] one_key_read(d0, t, d1) && c1 == apply_steps(c0, t)
}

/// SP steps leave the criteria as they are.
proof fn lemma_spaces_apply(c: SearchCriteria, t: Seq<SearchStep>)
    requires
        forall|i: int| 0 <= i < t.len() ==> #[trigger] t[i] is Space,
    ensures
        apply_steps(c, t) == c,
    decreases t.len(),
{
    if t.len() > 0 {
        assert(t[0] is Space);
        assert forall|i: int| 0 <= i < t.skip(1).len() implies #[trigger] t.skip(1)[i] is Space by {
            assert(t.skip(1)[i] == t[i + 1]);
        }
        lemma_spaces_apply(key_effect(c, t[0]), t.skip(1));
    }
}

/// Reads exactly one search key (the operand of NOT, or of OR), after
/// any SPs: fails at the end of the line. A NOT or OR read here reads its
/// own operands in turn.
pub fn parse_one_key(conn: &mut Conn, criteria: &mut SearchCriteria) -> (r: ImapResult<()>)
    requires
        old(conn).wf(),
    ensures
        final(conn).wf(),
        only_decoder_moved(*old(conn), *final(conn)),
        r is Ok <==> one_key_ok(old(conn).decoder),
        r is Ok ==> one_key_done(old(conn).decoder, final(conn).decoder, *old(criteria), *final(criteria)),
        r is Ok ==> final(conn).decoder.stream().len() <= old(conn).decoder.stream().len(),
    decreases old(conn).decoder.stream().len(), 1nat,
{
    let ghost mut t: Seq<SearchStep> = Seq::empty();
    loop
        invariant
            conn.wf(),
            only_decoder_moved(*old(conn), *conn),
            conn.decoder.stream().len() <= old(conn).decoder.stream().len(),
            steps_from(old(conn).decoder, t, conn.decoder),
            forall|i: int| 0 <= i < t.len() ==> #[trigger] t[i] is Space,
            *criteria == *old(criteria),
        decreases conn.decoder.stream().len(),
    {
        let ghost d0 = conn.decoder;
        let b = match conn.decoder.peek_byte() {
            Ok(x) => x,
            Err(e) => {
                proof {
                    if one_key_ok(old(conn).decoder) {
                        let (tw, ew) = choose|t: Seq<SearchStep>, d1: AsyncDecoder| #[trigger] one_key_read(old(conn).decoder, t, d1);
                        lemma_one_key_at(old(conn).decoder, t, d0, tw, ew);
                        let st = choose|st: SearchStep| #[trigger] step_read(d0, st);
                        lemma_space_or_key(d0, st);
                    }
                }
                return Err(e);
            },
        };
        let ghost d1 = conn.decoder;
        proof {
            d0.lemma_advanced_pub(&d1, 0, true);
        }
        if b == 13u8 || b == 10u8 {
            proof {
                if one_key_ok(old(conn).decoder) {
                    let (tw, ew) = choose|t: Seq<SearchStep>, d1: AsyncDecoder| #[trigger] one_key_read(old(conn).decoder, t, d1);
                    lemma_one_key_at(old(conn).decoder, t, d0, tw, ew);
                    let st = choose|st: SearchStep| #[trigger] step_read(d0, st);
                    lemma_space_or_key(d0, st);
                    let (p2, k2, r2) = step_key(st);
                    assert(key_read(d0, p2, k2, r2));
                }
            }
            return Err(ImapError::bad("expected search key"));
        }
        if b == 32u8 {
            let _ = conn.decoder.read_byte();
            proof {
                d1.lemma_advanced_pub(&conn.decoder, 1, false);
                d0.lemma_peek_then_read(&d1, &conn.decoder);
                let st = SearchStep::Space { after: conn.decoder };
                assert(step_read(d0, st));
                lemma_steps_push(old(conn).decoder, t, d0, st);
                assert forall|i: int| 0 <= i < t.push(st).len() implies #[trigger] t.push(st)[i] is Space by {
                    if i < t.len() {
                        assert(t.push(st)[i] == t[i]);
                    }
                }
                t = t.push(st);
            }
            continue;
        }
        let ra = conn.decoder.read_atom();
        let ghost dr = conn.decoder;
        let key = match ra {
            Ok(k) => k,
            Err(e) => {
                proof {
                    if one_key_ok(old(conn).decoder) {
                        let (tw, ew) = choose|t: Seq<SearchStep>, d1: AsyncDecoder| #[trigger] one_key_read(old(conn).decoder, t, d1);
                        lemma_one_key_at(old(conn).decoder, t, d0, tw, ew);
                        let st = choose|st: SearchStep| #[trigger] step_read(d0, st);
                        lemma_space_or_key(d0, st);
                        let (p2, k2, r2) = step_key(st);
                        assert(key_read(d0, p2, k2, r2));
                        d0.lemma_advanced_det(&d1, &p2, 0, true);
                        lemma_run_det(&d1, &dr, ra, &r2, Ok(k2), ByteClass::Atom, "expected atom"@);
                    }
                }
                return Err(e);
            },
        };
        proof {
            let s = d1.stream();
            crate::codec::lemma_span(s, ByteClass::Atom);
            d1.lemma_advanced_pub(&conn.decoder, span(s, ByteClass::Atom), true);
            assert(key_read(d0, d1, key, conn.decoder));
        }
        let kc = chars_of(key.as_str());
        let u = upper_char_vec(&kc);
        let ghost c_before = *criteria;
        match apply_search_key(conn, criteria, &u, Ghost(d0), Ghost(d1), Ghost(key)) {
            Ok(()) => {},
            Err(e) => {
                proof {
                    if one_key_ok(old(conn).decoder) {
                        let (tw, ew) = choose|t: Seq<SearchStep>, d1: AsyncDecoder| #[trigger] one_key_read(old(conn).decoder, t, d1);
                        lemma_one_key_at(old(conn).decoder, t, d0, tw, ew);
                    }
                }
                return Err(e);
            },
        }
        proof {
            let st = choose|st: SearchStep|
                #![trigger step_read(d0, st)]
                step_read(d0, st) && step_after(st) == conn.decoder && *criteria == key_effect(c_before, st);
            assert(step_read(d0, st));
            lemma_space_or_key(d0, st);
            lemma_steps_push(old(conn).decoder, t, d0, st);
            lemma_apply_push(*old(criteria), t, st);
            lemma_spaces_apply(*old(criteria), t);
            let t2 = t.push(st);
            assert(t2[t2.len() - 1] == st);
            assert forall|i: int| 0 <= i < t2.len() - 1 implies #[trigger] t2[i] is Space by {
                assert(t2[i] == t[i]);
            }
            assert(one_key_read(old(conn).decoder, t2, conn.decoder));
        }
        return Ok(());
    }
}

/// Reads SP and an astring (the argument of a key).
fn key_astring(conn: &mut Conn) -> (r: ImapResult<String>)
    requires
        old(conn).wf(),
    ensures
        final(conn).wf(),
        only_decoder_moved(*old(conn), *final(conn)),
        r is Ok ==> final(conn).decoder.stream().len() < old(conn).decoder.stream().len(),
        r is Ok ==> exists|sp: AsyncDecoder|
            #[trigger] arg_read(ByteClass::AString, old(conn).decoder, sp, r->Ok_0, final(conn).decoder),
        r is Err ==> !exists|sp: AsyncDecoder, v: String, a: AsyncDecoder|
            #[trigger] arg_read(ByteClass::AString, old(conn).decoder, sp, v, a),
{
    let ghost d0 = conn.decoder;
    let sp = conn.decoder.expect_sp();
    let ghost d1 = conn.decoder;
    proof {
        if sp is Ok {
            d0.lemma_sp_shrinks(&conn.decoder, sp);
        }
    }
    if let Err(e) = sp {
        proof {
            if exists|sp: AsyncDecoder, v: String, a: AsyncDecoder| #[trigger] arg_read(ByteClass::AString, d0, sp, v, a) {
                let (s2, v2, a2) = choose|sp: AsyncDecoder, v: String, a: AsyncDecoder| #[trigger] arg_read(ByteClass::AString, d0, sp, v, a);
                lemma_sp_det(&d0, &d1, sp, &s2, Ok(()));
            }
        }
        return Err(e);
    }
    let v = conn.decoder.read_astring();
    proof {
        if v is Ok {
            d1.lemma_astring_shrinks(&conn.decoder, v, ByteClass::AString, "expected astring"@);
            assert(arg_read(ByteClass::AString, d0, d1, v->Ok_0, conn.decoder));
        } else if exists|sp: AsyncDecoder, v: String, a: AsyncDecoder| #[trigger] arg_read(ByteClass::AString, d0, sp, v, a) {
            let (s2, v2, a2) = choose|sp: AsyncDecoder, v: String, a: AsyncDecoder| #[trigger] arg_read(ByteClass::AString, d0, sp, v, a);
            lemma_sp_det(&d0, &d1, Ok(()), &s2, Ok(()));
            lemma_astring_det(&d1, &conn.decoder, v, &a2, Ok(v2), ByteClass::AString, "expected astring"@);
        }
    }
    v
}

/// The class of a key's argument: a sequence set or an atom.
pub open spec fn word_class(set_chars: bool) -> ByteClass {
    if set_chars {
        ByteClass::NumSet
    } else {
        ByteClass::Atom
    }
}

/// Reads SP and an atom (a sequence set when `set_chars`).
fn key_atom(conn: &mut Conn, set_chars: bool) -> (r: ImapResult<String>)
    requires
        old(conn).wf(),
    ensures
        final(conn).wf(),
        only_decoder_moved(*old(conn), *final(conn)),
        r is Ok ==> final(conn).decoder.stream().len() < old(conn).decoder.stream().len(),
        r is Ok ==> exists|sp: AsyncDecoder|
            #[trigger] arg_read(word_class(set_chars), old(conn).decoder, sp, r->Ok_0, final(conn).decoder),
        r is Err ==> !exists|sp: AsyncDecoder, v: String, a: AsyncDecoder|
            #[trigger] arg_read(word_class(set_chars), old(conn).decoder, sp, v, a),
{
    let ghost d0 = conn.decoder;
    let ghost kind = word_class(set_chars);
    let sp = conn.decoder.expect_sp();
    let ghost d1 = conn.decoder;
    proof {
        if sp is Ok {
            d0.lemma_sp_shrinks(&conn.decoder, sp);
        }
    }
    if let Err(e) = sp {
        proof {
            if exists|sp: AsyncDecoder, v: String, a: AsyncDecoder| #[trigger] arg_read(kind, d0, sp, v, a) {
                let (s2, v2, a2) = choose|sp: AsyncDecoder, v: String, a: AsyncDecoder| #[trigger] arg_read(kind, d0, sp, v, a);
                lemma_sp_det(&d0, &d1, sp, &s2, Ok(()));
            }
        }
        return Err(e);
    }
    if set_chars {
        let v = conn.decoder.read_num_set_str();
        proof {
            if v is Ok {
                d1.lemma_run_shrinks(&conn.decoder, v, ByteClass::NumSet, "expected sequence-set"@);
                assert(arg_read(ByteClass::NumSet, d0, d1, v->Ok_0, conn.decoder));
            } else if exists|sp: AsyncDecoder, v: String, a: AsyncDecoder| #[trigger] arg_read(kind, d0, sp, v, a) {
                let (s2, v2, a2) = choose|sp: AsyncDecoder, v: String, a: AsyncDecoder| #[trigger] arg_read(kind, d0, sp, v, a);
                lemma_sp_det(&d0, &d1, Ok(()), &s2, Ok(()));
                lemma_run_det(&d1, &conn.decoder, v, &a2, Ok(v2), ByteClass::NumSet, "expected sequence-set"@);
            }
        }
        v
    } else {
        let v = conn.decoder.read_atom();
        proof {
            if v is Ok {
                d1.lemma_run_shrinks(&conn.decoder, v, ByteClass::Atom, "expected atom"@);
                assert(arg_read(ByteClass::Atom, d0, d1, v->Ok_0, conn.decoder));
            } else if exists|sp: AsyncDecoder, v: String, a: AsyncDecoder| #[trigger] arg_read(kind, d0, sp, v, a) {
                let (s2, v2, a2) = choose|sp: AsyncDecoder, v: String, a: AsyncDecoder| #[trigger] arg_read(kind, d0, sp, v, a);
                lemma_sp_det(&d0, &d1, Ok(()), &s2, Ok(()));
                lemma_run_det(&d1, &conn.decoder, v, &a2, Ok(v2), ByteClass::Atom, "expected atom"@);
            }
        }
        v
    }
}

/// Reads SP and a signed number, taken as unsigned.
fn key_number(conn: &mut Conn) -> (r: ImapResult<u64>)
    requires
        old(conn).wf(),
    ensures
        final(conn).wf(),
        only_decoder_moved(*old(conn), *final(conn)),
        r is Ok ==> final(conn).decoder.stream().len() < old(conn).decoder.stream().len(),
        r is Ok ==> exists|sp: AsyncDecoder, v: i64|
            #![trigger sp_result(&old(conn).decoder, &sp, Ok(())), number64_result(&sp, &final(conn).decoder, Ok(v))]
            sp_result(&old(conn).decoder, &sp, Ok(())) && number64_result(&sp, &final(conn).decoder, Ok(v))
                && r->Ok_0 == v as u64,
        r is Err ==> !exists|sp: AsyncDecoder, v: i64, a: AsyncDecoder|
            #![trigger sp_result(&old(conn).decoder, &sp, Ok(())), number64_result(&sp, &a, Ok(v))]
            sp_result(&old(conn).decoder, &sp, Ok(())) && number64_result(&sp, &a, Ok(v)),
{
    let ghost d0 = conn.decoder;
    let sp = conn.decoder.expect_sp();
    let ghost d1 = conn.decoder;
    proof {
        if sp is Ok {
            d0.lemma_sp_shrinks(&conn.decoder, sp);
        }
    }
    if let Err(e) = sp {
        proof {
            if exists|sp: AsyncDecoder, v: i64, a: AsyncDecoder|
                #![trigger sp_result(&d0, &sp, Ok(())), number64_result(&sp, &a, Ok(v))]
                sp_result(&d0, &sp, Ok(())) && number64_result(&sp, &a, Ok(v)) {
                let (s2, v2, a2) = choose|sp: AsyncDecoder, v: i64, a: AsyncDecoder|
                    sp_result(&d0, &sp, Ok(())) && number64_result(&sp, &a, Ok(v));
                lemma_sp_det(&d0, &d1, sp, &s2, Ok(()));
            }
        }
        return Err(e);
    }
    let v = conn.decoder.read_number64();
    let ghost d2 = conn.decoder;
    proof {
        if v is Ok {
            d1.lemma_number64_shrinks(&conn.decoder, v);
        }
    }
    let n = match v {
        Ok(x) => x,
        Err(e) => {
            proof {
                if exists|sp: AsyncDecoder, v: i64, a: AsyncDecoder|
                    #![trigger sp_result(&d0, &sp, Ok(())), number64_result(&sp, &a, Ok(v))]
                    sp_result(&d0, &sp, Ok(())) && number64_result(&sp, &a, Ok(v)) {
                    let (s2, v2, a2) = choose|sp: AsyncDecoder, v: i64, a: AsyncDecoder|
                        sp_result(&d0, &sp, Ok(())) && number64_result(&sp, &a, Ok(v));
                    lemma_sp_det(&d0, &d1, Ok(()), &s2, Ok(()));
                    lemma_number64_det(&d1, &d2, v, &a2, Ok(v2));
                }
            }
            return Err(e);
        },
    };
    assert(sp_result(&d0, &d1, Ok(())) && number64_result(&d1, &conn.decoder, Ok(n)));
    Ok(n as u64)
}

/// Applies a key without argument.
#[verifier::rlimit(60)]
fn apply_bare_key(criteria: &mut SearchCriteria, u: &[char]) -> (handled: bool)
    ensures
        handled ==> *final(criteria) == bare_effect(*old(criteria), u@) && bare_key(u@),
        !handled ==> *final(criteria) == *old(criteria) && u@ != "ALL"@ && u@ != "NEW"@ && u@ != "OLD"@
            && u@ != "RECENT"@ && u@ != "SEEN"@ && u@ != "UNSEEN"@ && u@ != "ANSWERED"@ && u@ != "UNANSWERED"@
            && u@ != "DELETED"@ && u@ != "UNDELETED"@ && u@ != "DRAFT"@ && u@ != "UNDRAFT"@ && u@ != "FLAGGED"@
            && u@ != "UNFLAGGED"@,
{
    if word_is(u, "ALL") {
        criteria.all = true;
    } else if word_is(u, "NEW") {
        criteria.new = Some(true);
    } else if word_is(u, "OLD") {
        criteria.old = Some(true);
    } else if word_is(u, "RECENT") {
        criteria.recent = Some(true);
    } else if word_is(u, "SEEN") {
        criteria.seen = Some(true);
    } else if word_is(u, "UNSEEN") {
        criteria.unseen = true;
    } else if word_is(u, "ANSWERED") {
        criteria.answered = Some(true);
    } else if word_is(u, "UNANSWERED") {
        criteria.unanswered = true;
    } else if word_is(u, "DELETED") {
        criteria.deleted = Some(true);
    } else if word_is(u, "UNDELETED") {
        criteria.deleted = Some(false);
    } else if word_is(u, "DRAFT") {
        criteria.draft = Some(true);
    } else if word_is(u, "UNDRAFT") {
        criteria.undraft = true;
    } else if word_is(u, "FLAGGED") {
        criteria.flagged = Some(true);
    } else if word_is(u, "UNFLAGGED") {
        criteria.unflagged = true;
    } else {
        return false;
    }
    proof {
        lemma_bare_key(u@);
    }
    true
}

/// Each key without argument is none of the others.
proof fn lemma_bare_key(u: Seq<char>)
    requires
        u == "ALL"@ || u == "NEW"@ || u == "OLD"@ || u == "RECENT"@ || u == "SEEN"@ || u == "UNSEEN"@
            || u == "ANSWERED"@ || u == "UNANSWERED"@ || u == "DELETED"@ || u == "UNDELETED"@ || u == "DRAFT"@
            || u == "UNDRAFT"@ || u == "FLAGGED"@ || u == "UNFLAGGED"@,
    ensures
        bare_key(u),
{
    lemma_bare_keys();
}

/// What a key handler promises: the key's step, read from `d0`, ends where
/// the decoder is and turns `c0` into `c1`.
pub open spec fn key_step_done(d0: AsyncDecoder, d1: AsyncDecoder, c0: SearchCriteria, c1: SearchCriteria) -> bool {
    exists|st: SearchStep| #![trigger step_read(d0, st)] step_read(d0, st) && step_after(st) == d1 && c1 == key_effect(c0, st)
}

/// Applies a key with an astring argument.
fn apply_text_key(
    conn: &mut Conn,
    criteria: &mut SearchCriteria,
    u: &[char],
    Ghost(d0): Ghost<AsyncDecoder>,
    Ghost(peeked): Ghost<AsyncDecoder>,
    Ghost(key): Ghost<String>,
) -> (r: ImapResult<()>)
    requires
        old(conn).wf(),
        key_read(d0, peeked, key, old(conn).decoder),
        u@ == upper_chars(key@),
        text_key(u@),
    ensures
        final(conn).wf(),
        only_decoder_moved(*old(conn), *final(conn)),
        r is Ok ==> final(conn).decoder.stream().len() <= old(conn).decoder.stream().len(),
        r is Ok ==> key_step_done(d0, final(conn).decoder, *old(criteria), *final(criteria)),
        r is Err ==> !key_step_ok(d0),
{
    let ghost read = conn.decoder;
    let ghost c0 = *criteria;
    let v = match key_astring(conn) {
        Ok(x) => x,
        Err(e) => {
            proof {
                if key_step_ok(d0) {
                    let st = choose|st: SearchStep| #[trigger] step_read(d0, st);
                    lemma_keyed_step(d0, peeked, key, read, st);
                    lemma_key_classes(u@);
                    match st {
                        SearchStep::Text { sp, value, after, .. } => {
                            assert(arg_read(ByteClass::AString, read, sp, value, after));
                        },
                        _ => {},
                    }
                }
            }
            return Err(e);
        },
    };
    let ghost sp = choose|sp: AsyncDecoder| #[trigger] arg_read(ByteClass::AString, read, sp, v, conn.decoder);
    if word_is(u, "FROM") {
        criteria.from = Some(v);
    } else if word_is(u, "TO") {
        criteria.to = Some(v);
    } else if word_is(u, "SUBJECT") {
        criteria.subject = Some(v);
    } else if word_is(u, "BODY") {
        criteria.body = Some(v);
    } else if word_is(u, "TEXT") {
        criteria.text = Some(v);
    } else if word_is(u, "BEFORE") {
        criteria.before = Some(v);
    } else if word_is(u, "SINCE") {
        criteria.since = Some(v);
    }
    let ghost st = SearchStep::Text { peeked, key, read, sp, value: v, after: conn.decoder };
    assert(step_read(d0, st));
    assert(*criteria == key_effect(c0, st));
    Ok(())
}

/// Applies a key with a number argument.
fn apply_number_key(
    conn: &mut Conn,
    criteria: &mut SearchCriteria,
    u: &[char],
    Ghost(d0): Ghost<AsyncDecoder>,
    Ghost(peeked): Ghost<AsyncDecoder>,
    Ghost(key): Ghost<String>,
) -> (r: ImapResult<()>)
    requires
        old(conn).wf(),
        key_read(d0, peeked, key, old(conn).decoder),
        u@ == upper_chars(key@),
        number_key(u@),
    ensures
        final(conn).wf(),
        only_decoder_moved(*old(conn), *final(conn)),
        r is Ok ==> final(conn).decoder.stream().len() <= old(conn).decoder.stream().len(),
        r is Ok ==> key_step_done(d0, final(conn).decoder, *old(criteria), *final(criteria)),
        r is Err ==> !key_step_ok(d0),
{
    let ghost read = conn.decoder;
    let ghost c0 = *criteria;
    let n = match key_number(conn) {
        Ok(x) => x,
        Err(e) => {
            proof {
                if key_step_ok(d0) {
                    let st = choose|st: SearchStep| #[trigger] step_read(d0, st);
                    lemma_keyed_step(d0, peeked, key, read, st);
                    lemma_key_classes(u@);
                    match st {
                        SearchStep::Number { sp, value, after, .. } => {
                            assert(sp_result(&read, &sp, Ok(())) && number64_result(&sp, &after, Ok(value)));
                        },
                        _ => {},
                    }
                }
            }
            return Err(e);
        },
    };
    let ghost (sp, v) = choose|sp: AsyncDecoder, v: i64|
        #![trigger sp_result(&read, &sp, Ok(())), number64_result(&sp, &conn.decoder, Ok(v))]
        sp_result(&read, &sp, Ok(())) && number64_result(&sp, &conn.decoder, Ok(v)) && n == v as u64;
    if word_is(u, "SMALLER") {
        criteria.smaller = Some(n);
    } else {
        criteria.larger = Some(n);
    }
    let ghost st = SearchStep::Number { peeked, key, read, sp, value: v, after: conn.decoder };
    assert(step_read(d0, st));
    assert(*criteria == key_effect(c0, st));
    Ok(())
}

/// Applies a key with a sequence-set or atom argument.
fn apply_word_key(
    conn: &mut Conn,
    criteria: &mut SearchCriteria,
    u: &[char],
    set_chars: bool,
    Ghost(d0): Ghost<AsyncDecoder>,
    Ghost(peeked): Ghost<AsyncDecoder>,
    Ghost(key): Ghost<String>,
) -> (r: ImapResult<()>)
    requires
        old(conn).wf(),
        key_read(d0, peeked, key, old(conn).decoder),
        u@ == upper_chars(key@),
        set_chars ==> set_key(u@),
        !set_chars ==> word_key(u@),
    ensures
        final(conn).wf(),
        only_decoder_moved(*old(conn), *final(conn)),
        r is Ok ==> final(conn).decoder.stream().len() <= old(conn).decoder.stream().len(),
        r is Ok ==> key_step_done(d0, final(conn).decoder, *old(criteria), *final(criteria)),
        r is Err ==> !key_step_ok(d0),
{
    let ghost read = conn.decoder;
    let ghost c0 = *criteria;
    let v = match key_atom(conn, set_chars) {
        Ok(x) => x,
        Err(e) => {
            proof {
                if key_step_ok(d0) {
                    let st = choose|st: SearchStep| #[trigger] step_read(d0, st);
                    lemma_keyed_step(d0, peeked, key, read, st);
                    lemma_key_classes(u@);
                    match st {
                        SearchStep::Seqs { sp, value, after, .. } => {
                            assert(arg_read(word_class(set_chars), read, sp, value, after));
                        },
                        SearchStep::Word { sp, value, after, .. } => {
                            assert(arg_read(word_class(set_chars), read, sp, value, after));
                        },
                        _ => {},
                    }
                }
            }
            return Err(e);
        },
    };
    let ghost sp = choose|sp: AsyncDecoder| #[trigger] arg_read(word_class(set_chars), read, sp, v, conn.decoder);
    if set_chars {
        if word_is(u, "UID") {
            criteria.uid_set = Some(v);
        } else {
            criteria.seq_set = Some(v);
        }
        let ghost st = SearchStep::Seqs { peeked, key, read, sp, value: v, after: conn.decoder };
        assert(step_read(d0, st));
        assert(*criteria == key_effect(c0, st));
    } else {
        if word_is(u, "KEYWORD") {
            criteria.keyword = Some(v);
        } else {
            criteria.unkeyword = Some(v);
        }
        let ghost st = SearchStep::Word { peeked, key, read, sp, value: v, after: conn.decoder };
        assert(step_read(d0, st));
        assert(*criteria == key_effect(c0, st));
    }
    Ok(())
}

/// Applies NOT: the one key that follows, read into new criteria.
fn apply_not_key(
    conn: &mut Conn,
    criteria: &mut SearchCriteria,
    Ghost(d0): Ghost<AsyncDecoder>,
    Ghost(peeked): Ghost<AsyncDecoder>,
    Ghost(key): Ghost<String>,
) -> (r: ImapResult<()>)
    requires
        old(conn).wf(),
        key_read(d0, peeked, key, old(conn).decoder),
        upper_chars(key@) == "NOT"@,
    ensures
        final(conn).wf(),
        only_decoder_moved(*old(conn), *final(conn)),
        r is Ok ==> final(conn).decoder.stream().len() <= old(conn).decoder.stream().len(),
        r is Ok ==> key_step_done(d0, final(conn).decoder, *old(criteria), *final(criteria)),
        r is Err ==> !key_step_ok(d0),
    decreases old(conn).decoder.stream().len(), 2nat,
{
    let ghost read = conn.decoder;
    let ghost c0 = *criteria;
    let mut sub = SearchCriteria::default();
    let ghost sub0 = sub;
    match parse_one_key(conn, &mut sub) {
        Ok(()) => {},
        Err(e) => {
            proof {
                if key_step_ok(d0) {
                    let st = choose|st: SearchStep| #[trigger] step_read(d0, st);
                    lemma_keyed_step(d0, peeked, key, read, st);
                    lemma_key_classes(upper_chars(key@));
                    match st {
                        SearchStep::Not { sub: t, after, .. } => {
                            assert(one_key_read(read, t, after));
                        },
                        SearchStep::Or { sub_a, mid, .. } => {
                            assert(one_key_read(read, sub_a, mid));
                        },
                        _ => {},
                    }
                }
            }
            return Err(e);
        },
    }
    let ghost t = choose|t: Seq<SearchStep>| #[trigger] one_key_read(read, t, conn.decoder) && sub == apply_steps(sub0, t);
    criteria.not = Some(Box::new(sub));
    let ghost st = SearchStep::Not { peeked, key, read, start: sub0, sub: t, after: conn.decoder };
    assert(step_read(d0, st));
    assert(*criteria == key_effect(c0, st));
    Ok(())
}

/// Applies OR: the next key read into new criteria, then the key after it
/// into other new criteria.
fn apply_or_key(
    conn: &mut Conn,
    criteria: &mut SearchCriteria,
    Ghost(d0): Ghost<AsyncDecoder>,
    Ghost(peeked): Ghost<AsyncDecoder>,
    Ghost(key): Ghost<String>,
) -> (r: ImapResult<()>)
    requires
        old(conn).wf(),
        key_read(d0, peeked, key, old(conn).decoder),
        upper_chars(key@) == "OR"@,
    ensures
        final(conn).wf(),
        only_decoder_moved(*old(conn), *final(conn)),
        r is Ok ==> final(conn).decoder.stream().len() <= old(conn).decoder.stream().len(),
        r is Ok ==> key_step_done(d0, final(conn).decoder, *old(criteria), *final(criteria)),
        r is Err ==> !key_step_ok(d0),
    decreases old(conn).decoder.stream().len(), 2nat,
{
    let ghost read = conn.decoder;
    let ghost c0 = *criteria;
    let mut a = SearchCriteria::default();
    let mut b = SearchCriteria::default();
    let ghost a0 = a;
    let ghost b0 = b;
    match parse_one_key(conn, &mut a) {
        Ok(()) => {},
        Err(e) => {
            proof {
                if key_step_ok(d0) {
                    let st = choose|st: SearchStep| #[trigger] step_read(d0, st);
                    lemma_keyed_step(d0, peeked, key, read, st);
                    lemma_key_classes(upper_chars(key@));
                    match st {
                        SearchStep::Not { sub: t, after, .. } => {
                            assert(one_key_read(read, t, after));
                        },
                        SearchStep::Or { sub_a, mid, .. } => {
                            assert(one_key_read(read, sub_a, mid));
                        },
                        _ => {},
                    }
                }
            }
            return Err(e);
        },
    }
    let ghost mid = conn.decoder;
    let ghost ta = choose|t: Seq<SearchStep>| #[trigger] one_key_read(read, t, mid) && a == apply_steps(a0, t);
    match parse_one_key(conn, &mut b) {
        Ok(()) => {},
        Err(e) => {
            proof {
                if key_step_ok(d0) {
                    let st = choose|st: SearchStep| #[trigger] step_read(d0, st);
                    lemma_keyed_step(d0, peeked, key, read, st);
                    lemma_key_classes(upper_chars(key@));
                    match st {
                        SearchStep::Or { sub_a, mid: wm, sub_b, after, .. } => {
                            lemma_one_key_det(read, ta, mid, sub_a, wm);
                            assert(one_key_read(mid, sub_b, after));
                        },
                        _ => {},
                    }
                }
            }
            return Err(e);
        },
    }
    let ghost tb = choose|t: Seq<SearchStep>| #[trigger] one_key_read(mid, t, conn.decoder) && b == apply_steps(b0, t);
    criteria.or = Some((Box::new(a), Box::new(b)));
    let ghost st = SearchStep::Or {
        peeked,
        key,
        read,
        start_a: a0,
        sub_a: ta,
        mid,
        start_b: b0,
        sub_b: tb,
        after: conn.decoder,
    };
    assert(step_read(d0, st));
    assert(*criteria == key_effect(c0, st));
    Ok(())
}

/// Applies one upper-case search key, reading its argument.
fn apply_search_key(
    conn: &mut Conn,
    criteria: &mut SearchCriteria,
    u: &[char],
    Ghost(d0): Ghost<AsyncDecoder>,
    Ghost(peeked): Ghost<AsyncDecoder>,
    Ghost(key): Ghost<String>,
) -> (r: ImapResult<()>)
    requires
        old(conn).wf(),
        key_read(d0, peeked, key, old(conn).decoder),
        u@ == upper_chars(key@),
    ensures
        final(conn).wf(),
        only_decoder_moved(*old(conn), *final(conn)),
        r is Ok ==> final(conn).decoder.stream().len() <= old(conn).decoder.stream().len(),
        r is Ok ==> key_step_done(d0, final(conn).decoder, *old(criteria), *final(criteria)),
        r is Err ==> !key_step_ok(d0),
    decreases old(conn).decoder.stream().len(), 3nat,
{
    let ghost read = conn.decoder;
    let ghost c0 = *criteria;
    if apply_bare_key(criteria, u) {
        let ghost st = SearchStep::Bare { peeked, key, after: read };
        assert(step_read(d0, st));
        return Ok(());
    }
    if word_is(u, "FROM") || word_is(u, "TO") || word_is(u, "SUBJECT") || word_is(u, "BODY") || word_is(u, "TEXT")
        || word_is(u, "BEFORE") || word_is(u, "SINCE") || word_is(u, "ON") {
        apply_text_key(conn, criteria, u, Ghost(d0), Ghost(peeked), Ghost(key))
    } else if word_is(u, "SMALLER") || word_is(u, "LARGER") {
        apply_number_key(conn, criteria, u, Ghost(d0), Ghost(peeked), Ghost(key))
    } else if word_is(u, "UID") || word_is(u, "SEQNO") {
        apply_word_key(conn, criteria, u, true, Ghost(d0), Ghost(peeked), Ghost(key))
    } else if word_is(u, "NOT") {
        apply_not_key(conn, criteria, Ghost(d0), Ghost(peeked), Ghost(key))
    } else if word_is(u, "OR") {
        apply_or_key(conn, criteria, Ghost(d0), Ghost(peeked), Ghost(key))
    } else if word_is(u, "KEYWORD") || word_is(u, "UNKEYWORD") {
        apply_word_key(conn, criteria, u, false, Ghost(d0), Ghost(peeked), Ghost(key))
    } else {
        let ghost st = SearchStep::Bare { peeked, key, after: read };
        assert(step_read(d0, st));
        assert(*criteria == key_effect(c0, st));
        Ok(())
    }
}

/// No RETURN option is on.
pub open spec fn no_returns(o: SearchOptions) -> bool {
    !o.return_min && !o.return_max && !o.return_all && !o.return_count && !o.return_save
}

/// RETURN options read from one decoder: one outcome.
proof fn lemma_return_opts_det(
    d0: AsyncDecoder,
    d1: AsyncDecoder,
    o0: SearchOptions,
    o1: SearchOptions,
    r1: ImapResult<()>,
    d2: AsyncDecoder,
    o2: SearchOptions,
    r2: ImapResult<()>,
)
    requires
        return_opts_result(d0, d1, o0, o1, r1),
        return_opts_result(d0, d2, o0, o2, r2),
    ensures
        r1 is Ok <==> r2 is Ok,
        r1 is Ok ==> d1 == d2 && o1 == o2,
{
    let s = d0.stream();
    if s.len() > 0 {
        if s[0] != 40 {
            d0.lemma_advanced_det(&d1, &d2, 0, true);
        } else {
            match status_list(s.skip(1)) {
                Some((it, k)) => {
                    d0.lemma_advanced_det(&d1, &d2, k + 1, false);
                },
                None => {},
            }
        }
    }
}

/// What SEARCH reads before its keys, from `d0` to `dk` where the keys
/// start, giving options `o` and whether RETURN was given. When the first
/// byte is `R` or `r`, a word is read: `RETURN` (any case) is followed by
/// SP, the options and SP; any other word is left to the keys, unread.
/// Any other first byte is left to the keys.
pub open spec fn search_prefix(d0: AsyncDecoder, dk: AsyncDecoder, o: SearchOptions, ext: bool) -> bool {
    let s = d0.stream();
    &&& s.len() > 0
    &&& if s[0] == 82 || s[0] == 114 {
        exists|d4: AsyncDecoder, word: String|
            #[trigger] run_result(&d0, &d4, Ok(word), ByteClass::Atom, "expected atom"@) && if upper_chars(word@) == "RETURN"@ {
                exists|d5: AsyncDecoder, d6: AsyncDecoder|
                    #![trigger sp_result(&d4, &d5, Ok(())), sp_result(&d6, &dk, Ok(()))]
                    sp_result(&d4, &d5, Ok(())) && return_opts_result(d5, d6, blank_returns(), o, Ok(()))
                        && sp_result(&d6, &dk, Ok(())) && ext
            } else {
                dk == d0 && no_returns(o) && !ext
            }
    } else {
        dk == d0 && no_returns(o) && !ext
    }
}

/// The options with none on.
pub open spec fn blank_returns() -> SearchOptions {
    SearchOptions { return_min: false, return_max: false, return_all: false, return_count: false, return_save: false }
}

/// SEARCH's arguments read from `d0` to `d1`: the part before the keys,
/// the keys (from blank criteria) and the end of the line.
pub open spec fn search_line_read(d0: AsyncDecoder, d1: AsyncDecoder, o: SearchOptions, ext: bool, c: SearchCriteria) -> bool {
    exists|dk: AsyncDecoder, c0: SearchCriteria, dl: AsyncDecoder|
        #![trigger search_prefix(d0, dk, o, ext), criteria_read(dk, dl, c0, c)]
        {
            &&& search_prefix(d0, dk, o, ext)
            &&& is_blank_criteria(c0)
            &&& criteria_read(dk, dl, c0, c)
            &&& crlf_result(&dl, &d1, Ok(()))
        }
}

/// The line at `d0` holds SEARCH's arguments.
pub open spec fn search_line_ok(d0: AsyncDecoder) -> bool {
    exists|d1: AsyncDecoder, o: SearchOptions, ext: bool, c: SearchCriteria| #[trigger] search_line_read(d0, d1, o, ext, c)
}

/// What comes before the keys, read from one decoder: one outcome.
proof fn lemma_search_prefix_det(d0: AsyncDecoder, k1: AsyncDecoder, o1: SearchOptions, e1: bool, k2: AsyncDecoder, o2: SearchOptions, e2: bool)
    requires
        search_prefix(d0, k1, o1, e1),
        search_prefix(d0, k2, o2, e2),
    ensures
        k1 == k2,
{
    let s = d0.stream();
    if s[0] == 82 || s[0] == 114 {
        let (a4, wa) = choose|d4: AsyncDecoder, word: String|
            #[trigger] run_result(&d0, &d4, Ok(word), ByteClass::Atom, "expected atom"@) && if upper_chars(word@) == "RETURN"@ {
                exists|d5: AsyncDecoder, d6: AsyncDecoder|
                    #![trigger sp_result(&d4, &d5, Ok(())), sp_result(&d6, &k1, Ok(()))]
                    sp_result(&d4, &d5, Ok(())) && return_opts_result(d5, d6, blank_returns(), o1, Ok(()))
                        && sp_result(&d6, &k1, Ok(())) && e1
            } else {
                k1 == d0 && no_returns(o1) && !e1
            };
        let (b4, wb) = choose|d4: AsyncDecoder, word: String|
            #[trigger] run_result(&d0, &d4, Ok(word), ByteClass::Atom, "expected atom"@) && if upper_chars(word@) == "RETURN"@ {
                exists|d5: AsyncDecoder, d6: AsyncDecoder|
                    #![trigger sp_result(&d4, &d5, Ok(())), sp_result(&d6, &k2, Ok(()))]
                    sp_result(&d4, &d5, Ok(())) && return_opts_result(d5, d6, blank_returns(), o2, Ok(()))
                        && sp_result(&d6, &k2, Ok(())) && e2
            } else {
                k2 == d0 && no_returns(o2) && !e2
            };
        lemma_run_det(&d0, &a4, Ok(wa), &b4, Ok(wb), ByteClass::Atom, "expected atom"@);
        if upper_chars(wa@) == "RETURN"@ {
            let (a5, a6) = choose|d5: AsyncDecoder, d6: AsyncDecoder|
                #![trigger sp_result(&a4, &d5, Ok(())), sp_result(&d6, &k1, Ok(()))]
                sp_result(&a4, &d5, Ok(())) && return_opts_result(d5, d6, blank_returns(), o1, Ok(()))
                    && sp_result(&d6, &k1, Ok(())) && e1;
            let (b5, b6) = choose|d5: AsyncDecoder, d6: AsyncDecoder|
                #![trigger sp_result(&a4, &d5, Ok(())), sp_result(&d6, &k2, Ok(()))]
                sp_result(&a4, &d5, Ok(())) && return_opts_result(d5, d6, blank_returns(), o2, Ok(()))
                    && sp_result(&d6, &k2, Ok(())) && e2;
            lemma_sp_det(&a4, &a5, Ok(()), &b5, Ok(()));
            lemma_return_opts_det(a5, a6, blank_returns(), o1, Ok(()), b6, o2, Ok(()));
            lemma_sp_det(&a6, &k1, Ok(()), &k2, Ok(()));
        }
    }
}

/// Reads SEARCH's arguments: optional `RETURN (...)` options first, the
/// search keys, and the end of the line; the Selected state is required.
/// Gives the options, whether RETURN was given, and the criteria.
#[verifier::spinoff_prover]
#[verifier::rlimit(60)]
pub fn search_args(conn: &mut Conn) -> (r: ImapResult<(SearchOptions, bool, SearchCriteria)>)
    requires
        old(conn).wf(),
    ensures
        final(conn).wf(),
        only_decoder_moved(*old(conn), *final(conn)),
        old(conn).state != ConnState::Selected ==> r is Err && final(conn).decoder == old(conn).decoder,
        old(conn).state == ConnState::Selected ==> (r is Ok <==> search_line_ok(old(conn).decoder)),
        r matches Ok(v) ==> search_line_read(old(conn).decoder, final(conn).decoder, v.0, v.1, v.2),
{
    conn.require_selected()?;
    let mut options = SearchOptions::default();
    let mut extended = false;
    let ghost d0 = conn.decoder;
    let ghost s = d0.stream();
    let m0 = conn.decoder.mark();
    let b = conn.decoder.peek_byte()?;
    let ghost dp = conn.decoder;
    proof {
        d0.lemma_back_to(&dp, 0, true);
    }
    conn.decoder.rewind(m0);
    assert(conn.decoder == d0);
    let ghost mut dk = d0;
    if b == 82u8 || b == 114u8 {
        let ra = conn.decoder.read_atom();
        let ghost d4 = conn.decoder;
        let atom = match ra {
            Ok(a) => a,
            Err(e) => {
                proof {
                    lemma_search_prefix_fails_word(d0, d4, ra);
                }
                return Err(e);
            },
        };
        let ac = chars_of(atom.as_str());
        let au = upper_char_vec(&ac);
        if word_is(&au, "RETURN") {
            let r1 = conn.decoder.expect_sp();
            let ghost d5 = conn.decoder;
            if let Err(e) = r1 {
                proof {
                    lemma_search_prefix_fails_return(d0, d4, atom, d5, r1, d5, blank_returns(), Ok(()), d5, Ok(()));
                }
                return Err(e);
            }
            let ro = parse_search_return_opts(conn, &mut options);
            let ghost d6 = conn.decoder;
            if let Err(e) = ro {
                proof {
                    lemma_search_prefix_fails_return(d0, d4, atom, d5, r1, d6, options, ro, d6, Ok(()));
                }
                return Err(e);
            }
            let r2 = conn.decoder.expect_sp();
            let ghost d7 = conn.decoder;
            if let Err(e) = r2 {
                proof {
                    lemma_search_prefix_fails_return(d0, d4, atom, d5, r1, d6, options, ro, d7, r2);
                }
                return Err(e);
            }
            extended = true;
            proof {
                dk = d7;
                assert(sp_result(&d4, &d5, Ok(())) && sp_result(&d6, &dk, Ok(())));
                assert(run_result(&d0, &d4, Ok(atom), ByteClass::Atom, "expected atom"@));
                assert(search_prefix(d0, dk, options, extended));
            }
        } else {
            proof {
                d0.lemma_back_to(&d4, span(s, ByteClass::Atom), true);
            }
            conn.decoder.rewind(m0);
            proof {
                assert(run_result(&d0, &d4, Ok(atom), ByteClass::Atom, "expected atom"@));
                assert(search_prefix(d0, dk, options, extended));
            }
        }
    }
    assert(search_prefix(d0, dk, options, extended));
    let mut criteria = SearchCriteria::default();
    let ghost c0 = criteria;
    match parse_search_criteria(conn, &mut criteria) {
        Ok(()) => {},
        Err(e) => {
            proof {
                if search_line_ok(d0) {
                    let (w1, wo, we, wc) = choose|d1: AsyncDecoder, o: SearchOptions, ext: bool, c: SearchCriteria|
                        #[trigger] search_line_read(d0, d1, o, ext, c);
                    let (wk, wc0, wl) = choose|dk: AsyncDecoder, c0: SearchCriteria, dl: AsyncDecoder|
                        search_prefix(d0, dk, wo, we) && is_blank_criteria(c0) && criteria_read(dk, dl, c0, wc)
                            && crlf_result(&dl, &w1, Ok(()));
                    lemma_search_prefix_det(d0, dk, options, extended, wk, wo, we);
                    let (t, end) = choose|t: Seq<SearchStep>, end: AsyncDecoder|
                        #[trigger] line_read(dk, t, end, wl) && wc == apply_steps(wc0, t);
                    assert(line_read(dk, t, end, wl));
                }
            }
            return Err(e);
        },
    }
    let ghost dl = conn.decoder;
    let rc = conn.decoder.expect_crlf();
    let ghost de = conn.decoder;
    if let Err(e) = rc {
        proof {
            if search_line_ok(d0) {
                let (w1, wo, we, wc) = choose|d1: AsyncDecoder, o: SearchOptions, ext: bool, c: SearchCriteria|
                    #[trigger] search_line_read(d0, d1, o, ext, c);
                let (wk, wc0, wl) = choose|dk: AsyncDecoder, c0: SearchCriteria, dl: AsyncDecoder|
                    search_prefix(d0, dk, wo, we) && is_blank_criteria(c0) && criteria_read(dk, dl, c0, wc)
                        && crlf_result(&dl, &w1, Ok(()));
                lemma_search_prefix_det(d0, dk, options, extended, wk, wo, we);
                let (t, end) = choose|t: Seq<SearchStep>, end: AsyncDecoder|
                    #[trigger] line_read(dk, t, end, wl) && wc == apply_steps(wc0, t);
                let (ta, ea) = choose|t: Seq<SearchStep>, end: AsyncDecoder|
                    #[trigger] line_read(dk, t, end, dl) && criteria == apply_steps(c0, t);
                lemma_lines_det(dk, t, end, ta, ea);
                end.lemma_advanced_det(&wl, &dl, 0, true);
                lemma_crlf_det(&dl, &de, rc, &w1, Ok(()));
            }
        }
        return Err(e);
    }
    let out = (options, extended, criteria);
    assert(criteria_read(dk, dl, c0, out.2));
    assert(search_line_read(d0, de, out.0, out.1, out.2));
    Ok(out)
}

/// When the first word cannot be read, no reading of SEARCH's arguments
/// exists.
proof fn lemma_search_prefix_fails_word(d0: AsyncDecoder, d4: AsyncDecoder, ra: ImapResult<String>)
    requires
        d0.stream().len() > 0,
        d0.stream()[0] == 82 || d0.stream()[0] == 114,
        run_result(&d0, &d4, ra, ByteClass::Atom, "expected atom"@),
        ra is Err,
    ensures
        !search_line_ok(d0),
{
    if search_line_ok(d0) {
        let (w1, wo, we, wc) = choose|d1: AsyncDecoder, o: SearchOptions, ext: bool, c: SearchCriteria|
            #[trigger] search_line_read(d0, d1, o, ext, c);
        let (wk, wc0, wl) = choose|dk: AsyncDecoder, c0: SearchCriteria, dl: AsyncDecoder|
            search_prefix(d0, dk, wo, we) && is_blank_criteria(c0) && criteria_read(dk, dl, c0, wc)
                && crlf_result(&dl, &w1, Ok(()));
        let (a4, wa) = choose|e4: AsyncDecoder, word: String|
            #[trigger] run_result(&d0, &e4, Ok(word), ByteClass::Atom, "expected atom"@) && if upper_chars(word@) == "RETURN"@ {
                exists|d5: AsyncDecoder, d6: AsyncDecoder|
                    #![trigger sp_result(&e4, &d5, Ok(())), sp_result(&d6, &wk, Ok(()))]
                    sp_result(&e4, &d5, Ok(())) && return_opts_result(d5, d6, blank_returns(), wo, Ok(()))
                        && sp_result(&d6, &wk, Ok(())) && we
            } else {
                wk == d0 && no_returns(wo) && !we
            };
        lemma_run_det(&d0, &d4, ra, &a4, Ok(wa), ByteClass::Atom, "expected atom"@);
    }
}

/// When what follows RETURN cannot be read, no reading of SEARCH's
/// arguments exists.
proof fn lemma_search_prefix_fails_return(
    d0: AsyncDecoder,
    d4: AsyncDecoder,
    word: String,
    d5: AsyncDecoder,
    r1: ImapResult<()>,
    d6: AsyncDecoder,
    o: SearchOptions,
    ro: ImapResult<()>,
    d7: AsyncDecoder,
    r2: ImapResult<()>,
)
    requires
        d0.stream().len() > 0,
        d0.stream()[0] == 82 || d0.stream()[0] == 114,
        run_result(&d0, &d4, Ok(word), ByteClass::Atom, "expected atom"@),
        upper_chars(word@) == "RETURN"@,
        sp_result(&d4, &d5, r1),
        r1 is Ok ==> return_opts_result(d5, d6, blank_returns(), o, ro),
        r1 is Ok && ro is Ok ==> sp_result(&d6, &d7, r2),
        r1 is Err || ro is Err || r2 is Err,
    ensures
        !search_line_ok(d0),
{
    if search_line_ok(d0) {
        let (w1, wo, we, wc) = choose|d1: AsyncDecoder, o: SearchOptions, ext: bool, c: SearchCriteria|
            #[trigger] search_line_read(d0, d1, o, ext, c);
        let (wk, wc0, wl) = choose|dk: AsyncDecoder, c0: SearchCriteria, dl: AsyncDecoder|
            search_prefix(d0, dk, wo, we) && is_blank_criteria(c0) && criteria_read(dk, dl, c0, wc)
                && crlf_result(&dl, &w1, Ok(()));
        let (a4, wa) = choose|e4: AsyncDecoder, word: String|
            #[trigger] run_result(&d0, &e4, Ok(word), ByteClass::Atom, "expected atom"@) && if upper_chars(word@) == "RETURN"@ {
                exists|d5: AsyncDecoder, d6: AsyncDecoder|
                    #![trigger sp_result(&e4, &d5, Ok(())), sp_result(&d6, &wk, Ok(()))]
                    sp_result(&e4, &d5, Ok(())) && return_opts_result(d5, d6, blank_returns(), wo, Ok(()))
                        && sp_result(&d6, &wk, Ok(())) && we
            } else {
                wk == d0 && no_returns(wo) && !we
            };
        lemma_run_det(&d0, &d4, Ok(word), &a4, Ok(wa), ByteClass::Atom, "expected atom"@);
        let (a5, a6) = choose|e5: AsyncDecoder, e6: AsyncDecoder|
            #![trigger sp_result(&a4, &e5, Ok(())), sp_result(&e6, &wk, Ok(()))]
            sp_result(&a4, &e5, Ok(())) && return_opts_result(e5, e6, blank_returns(), wo, Ok(()))
                && sp_result(&e6, &wk, Ok(())) && we;
        lemma_sp_det(&d4, &d5, r1, &a5, Ok(()));
        if r1 is Ok {
            lemma_return_opts_det(d5, d6, blank_returns(), o, ro, a6, wo, Ok(()));
            if ro is Ok {
                lemma_sp_det(&d6, &d7, r2, &wk, Ok(()));
            }
        }
    }
}

/// The smallest of the numbers (`u32::MAX` when there are none).
pub open spec fn seq_min(ids: Seq<u32>) -> u32
    decreases ids.len(),
{
    if ids.len() == 0 {
        u32::MAX
    } else {
        let m = seq_min(ids.drop_last());
        if ids.last() < m { ids.last() } else { m }
    }
}

/// The largest of the numbers (0 when there are none).
pub open spec fn seq_max(ids: Seq<u32>) -> u32
    decreases ids.len(),
{
    if ids.len() == 0 {
        0
    } else {
        let m = seq_max(ids.drop_last());
        if ids.last() > m { ids.last() } else { m }
    }
}

fn min_max(ids: &[u32]) -> (r: (u32, u32))
    ensures
        r.0 == seq_min(ids@),
        r.1 == seq_max(ids@),
{
    let mut lo = u32::MAX;
    let mut hi = 0u32;
    let mut i: usize = 0;
    while i < ids.len()
        invariant
            i <= ids.len(),
            lo == seq_min(ids@.take(i as int)),
            hi == seq_max(ids@.take(i as int)),
        decreases ids.len() - i,
    {
        assert(ids@.take(i + 1).drop_last() =~= ids@.take(i as int));
        if ids[i] < lo {
            lo = ids[i];
        }
        if ids[i] > hi {
            hi = ids[i];
        }
        i += 1;
    }
    assert(ids@.take(ids@.len() as int) =~= ids@);
    (lo, hi)
}

/// The start of the ESEARCH response: `* ESEARCH`, `(TAG "tag")` for a
/// tagged command, `UID` for UID SEARCH.
pub open spec fn esearch_head(tag: Seq<u8>, uid: bool) -> Seq<u8> {
    seq![42u8, 32] + lit("ESEARCH"@) + (if tag.len() > 0 {
        seq![32u8, 40] + lit("TAG"@) + seq![32u8] + string_bytes(tag) + seq![41u8]
    } else {
        Seq::empty()
    }) + (if uid {
        seq![32u8] + lit("UID"@)
    } else {
        Seq::empty()
    })
}

/// `ALL set` (when there are results) and `MIN n` (when there are results)
/// as asked for.
pub open spec fn esearch_all_min(ids: Seq<u32>, o: SearchOptions) -> Seq<u8> {
    (if o.return_all && ids.len() > 0 {
        seq![32u8] + lit("ALL"@) + seq![32u8] + ranges_wire(add_nums(Seq::empty(), ids))
    } else {
        Seq::empty()
    }) + (if o.return_min && ids.len() > 0 {
        seq![32u8] + lit("MIN"@) + seq![32u8] + dec_digits(seq_min(ids) as nat)
    } else {
        Seq::empty()
    })
}

/// `MAX n` (when there are results) and `COUNT n` as asked for.
pub open spec fn esearch_max_count(ids: Seq<u32>, o: SearchOptions) -> Seq<u8> {
    (if o.return_max && ids.len() > 0 {
        seq![32u8] + lit("MAX"@) + seq![32u8] + dec_digits(seq_max(ids) as nat)
    } else {
        Seq::empty()
    }) + (if o.return_count {
        seq![32u8] + lit("COUNT"@) + seq![32u8] + dec_digits((ids.len() as u32) as nat)
    } else {
        Seq::empty()
    })
}

/// The ESEARCH response.
pub open spec fn esearch_line(tag: Seq<u8>, ids: Seq<u32>, o: SearchOptions, uid: bool) -> Seq<u8> {
    esearch_head(tag, uid) + esearch_all_min(ids, o) + esearch_max_count(ids, o) + seq![13u8, 10]
}

fn write_esearch_head(conn: &mut Conn, tag: &str, uid: bool)
    ensures
        final(conn).encoder@ == old(conn).encoder@ + esearch_head(tag.spec_bytes(), uid),
        final(conn).state == old(conn).state,
        final(conn).decoder == old(conn).decoder,
        final(conn).enabled == old(conn).enabled,
{
    conn.encoder.special(42u8);
    conn.encoder.sp();
    conn.encoder.atom("ESEARCH");
    if tag.as_bytes().len() > 0 {
        conn.encoder.sp();
        conn.encoder.special(40u8);
        conn.encoder.atom("TAG");
        conn.encoder.sp();
        conn.encoder.string(tag);
        conn.encoder.special(41u8);
    }
    if uid {
        conn.encoder.sp();
        conn.encoder.atom("UID");
    }
    assert(conn.encoder@ =~= old(conn).encoder@ + esearch_head(tag.spec_bytes(), uid));
}

fn write_esearch_all_min(conn: &mut Conn, ids: &[u32], options: &SearchOptions, lo: u32)
    requires
        lo == seq_min(ids@),
    ensures
        final(conn).encoder@ == old(conn).encoder@ + esearch_all_min(ids@, *options),
        final(conn).state == old(conn).state,
        final(conn).decoder == old(conn).decoder,
        final(conn).enabled == old(conn).enabled,
{
    if options.return_all && ids.len() > 0 {
        let set = build_seqset(ids);
        conn.encoder.sp();
        conn.encoder.atom("ALL");
        conn.encoder.sp();
        let w = set.wire_bytes();
        conn.encoder.write_raw(&w);
    }
    if options.return_min && ids.len() > 0 {
        conn.encoder.sp();
        conn.encoder.atom("MIN");
        conn.encoder.sp();
        conn.encoder.number(lo);
    }
    assert(conn.encoder@ =~= old(conn).encoder@ + esearch_all_min(ids@, *options));
}

fn write_esearch_max_count(conn: &mut Conn, ids: &[u32], options: &SearchOptions, hi: u32)
    requires
        hi == seq_max(ids@),
    ensures
        final(conn).encoder@ == old(conn).encoder@ + esearch_max_count(ids@, *options),
        final(conn).state == old(conn).state,
        final(conn).decoder == old(conn).decoder,
        final(conn).enabled == old(conn).enabled,
{
    if options.return_max && ids.len() > 0 {
        conn.encoder.sp();
        conn.encoder.atom("MAX");
        conn.encoder.sp();
        conn.encoder.number(hi);
    }
    if options.return_count {
        conn.encoder.sp();
        conn.encoder.atom("COUNT");
        conn.encoder.sp();
        conn.encoder.number(ids.len() as u32);
    }
    assert(conn.encoder@ =~= old(conn).encoder@ + esearch_max_count(ids@, *options));
}

/// Writes the ESEARCH response.
pub fn write_esearch(conn: &mut Conn, tag: &str, ids: &[u32], options: &SearchOptions, uid: bool)
    ensures
        final(conn).encoder@ == old(conn).encoder@ + esearch_line(tag.spec_bytes(), ids@, *options, uid),
        final(conn).state == old(conn).state,
        final(conn).decoder == old(conn).decoder,
        final(conn).enabled == old(conn).enabled,
{
    write_esearch_head(conn, tag, uid);
    let (lo, hi) = min_max(ids);
    write_esearch_all_min(conn, ids, options, lo);
    write_esearch_max_count(conn, ids, options, hi);
    conn.encoder.crlf();
    assert(conn.encoder@ =~= old(conn).encoder@ + esearch_line(tag.spec_bytes(), ids@, *options, uid));
}

/// Numbers each after SP.
pub open spec fn sp_numbers(ids: Seq<u32>) -> Seq<u8>
    decreases ids.len(),
{
    if ids.len() == 0 {
        Seq::empty()
    } else {
        sp_numbers(ids.drop_last()) + seq![32u8] + dec_digits(ids.last() as nat)
    }
}

/// The options in force: ALL when none was asked for.
pub open spec fn effective_options(o: SearchOptions) -> SearchOptions {
    if !o.return_min && !o.return_max && !o.return_all && !o.return_count {
        SearchOptions { return_all: true, ..o }
    } else {
        o
    }
}

/// ESEARCH is used: RETURN was given or ESEARCH is enabled.
pub open spec fn uses_esearch(enabled: Seq<Seq<char>>, extended: bool) -> bool {
    extended || enabled.contains("ESEARCH"@)
}

/// Ends SEARCH: the ESEARCH response when RETURN was given or ESEARCH is
/// enabled (ALL when no option was asked for), else `* SEARCH` with each
/// result; then `tag OK SEARCH completed`.
pub fn search_done(conn: &mut Conn, tag: &str, uid: bool, extended: bool, options: &SearchOptions, ids: &[u32])
    ensures
        final(conn).encoder@ == old(conn).encoder@ + (if uses_esearch(old(conn).enabled@, extended) {
            esearch_line(tag.spec_bytes(), ids@, effective_options(*options), uid)
        } else {
            seq![42u8, 32] + lit("SEARCH"@) + sp_numbers(ids@) + seq![13u8, 10]
        }) + completed_bytes(tag.spec_bytes(), "SEARCH"@),
        final(conn).state == old(conn).state,
        final(conn).decoder == old(conn).decoder,
        final(conn).enabled == old(conn).enabled,
{
    let mut opts = SearchOptions {
        return_min: options.return_min,
        return_max: options.return_max,
        return_all: options.return_all,
        return_count: options.return_count,
        return_save: options.return_save,
    };
    if !opts.return_min && !opts.return_max && !opts.return_all && !opts.return_count {
        opts.return_all = true;
    }
    assert(opts == effective_options(*options));
    let use_esearch = extended || conn.enabled.contains(&Cap::esearch());
    if use_esearch {
        write_esearch(conn, tag, ids, &opts, uid);
    } else {
        let ghost e0 = conn.encoder@;
        conn.encoder.special(42u8);
        conn.encoder.sp();
        conn.encoder.atom("SEARCH");
        let ghost mid = conn.encoder@;
        let mut i: usize = 0;
        while i < ids.len()
            invariant
                i <= ids.len(),
                conn.encoder@ == mid + sp_numbers(ids@.take(i as int)),
                conn.state == old(conn).state,
                conn.decoder == old(conn).decoder,
                conn.enabled == old(conn).enabled,
            decreases ids.len() - i,
        {
            assert(ids@.take(i + 1).drop_last() =~= ids@.take(i as int));
            conn.encoder.sp();
            conn.encoder.number(ids[i]);
            i += 1;
        }
        assert(ids@.take(ids@.len() as int) =~= ids@);
        conn.encoder.crlf();
        assert(conn.encoder@ =~= e0 + seq![42u8, 32] + lit("SEARCH"@) + sp_numbers(ids@) + seq![13u8, 10]);
    }
    crate::cmd::select::write_completed(conn, tag, "SEARCH");
}

} // verus!
