//! Conversions between display text and address lists.
//!
//! The display layer hands address lists around as newline-separated text:
//! one block each for addresses, netmasks, gateways and DNS servers.
//! Joining turns a list of texts into one block; converting parses the
//! four blocks back into address lists, rejecting any line that is not a
//! well-formed address of either family and blocks whose address and
//! netmask counts disagree.

use crate::ip::{
    parse_ip_chars, spec_parse_ip_text, spec_split, split_at_sep, views_of, IpAddress,
};
use vstd::prelude::*;
use vstd::string::{StrSliceExecFns, StringExecFns};

verus! {

/// A line with any trailing carriage return removed, so both line-feed
/// and carriage-return-line-feed separators are understood.
pub open spec fn spec_strip_cr(l: Seq<char>) -> Seq<char> {
    if l.len() > 0 && l.last() == '\r' {
        l.drop_last()
    } else {
        l
    }
}

/// The lines of a text: pieces split on the line-feed separator, a final
/// separator terminating the last line rather than opening an empty one,
/// and a trailing carriage return stripped from each line.
pub open spec fn spec_lines(s: Seq<char>) -> Seq<Seq<char>> {
    let p = spec_split(s, '\n');
    let t = if p.last().len() == 0 {
        p.drop_last()
    } else {
        p
    };
    t.map_values(|l: Seq<char>| spec_strip_cr(l))
}

/// The parsed address list of a line list: one address per line, either
/// family, or nothing when any line fails to parse.
pub open spec fn spec_parse_list(ls: Seq<Seq<char>>) -> Option<Seq<IpAddress>>
    decreases ls.len(),
{
    if ls.len() == 0 {
        Some(Seq::empty())
    } else {
        match spec_parse_list(ls.drop_last()) {
            None => None,
            Some(rest) => match spec_parse_ip_text(ls.last()) {
                None => None,
                Some(ip) => Some(rest.push(ip)),
            },
        }
    }
}

/// Once a prefix of the lines fails to parse, the whole list does.
proof fn lemma_parse_list_extend_none(ls: Seq<Seq<char>>, j: int)
    requires
        0 <= j <= ls.len(),
        spec_parse_list(ls.take(j)) is None,
    ensures
        spec_parse_list(ls) is None,
    decreases ls.len() - j,
{
    if j < ls.len() {
        assert(ls.take(j + 1).drop_last() =~= ls.take(j));
        lemma_parse_list_extend_none(ls, j + 1);
    } else {
        assert(ls.take(j) =~= ls);
    }
}

/// The parsed address list of one text block: one address per line,
/// either family, or nothing when any line fails to parse.
pub open spec fn spec_parse_ip_lines(s: Seq<char>) -> Option<Seq<IpAddress>> {
    spec_parse_list(spec_lines(s))
}

/// Why a set of text blocks does not convert to address lists.
#[derive(Clone, Copy, Debug, PartialEq, Eq, Structural)]
pub enum ConvertError {
    /// A line of the address block is not a well-formed address.
    BadIpList,
    /// A line of the netmask block is not a well-formed address.
    BadNetmaskList,
    /// A line of the gateway block is not a well-formed address.
    BadGatewayList,
    /// A line of the DNS block is not a well-formed address.
    BadDnsList,
    /// The address and netmask blocks hold different numbers of lines.
    LengthMismatch,
}

/// What converting the four text blocks yields: the address, netmask,
/// gateway and DNS lists in that order, or the first failure in that
/// order of checks.
pub open spec fn spec_convert_ip_items(
    t0: Seq<char>,
    t1: Seq<char>,
    t2: Seq<char>,
    t3: Seq<char>,
) -> Result<Seq<Seq<IpAddress>>, ConvertError> {
    if spec_parse_ip_lines(t0) is None {
        Err(ConvertError::BadIpList)
    } else if spec_parse_ip_lines(t1) is None {
        Err(ConvertError::BadNetmaskList)
    } else if spec_parse_ip_lines(t2) is None {
        Err(ConvertError::BadGatewayList)
    } else if spec_parse_ip_lines(t3) is None {
        Err(ConvertError::BadDnsList)
    } else if spec_parse_ip_lines(t0)->0.len() != spec_parse_ip_lines(t1)->0.len() {
        Err(ConvertError::LengthMismatch)
    } else {
        Ok(
            seq![
                spec_parse_ip_lines(t0)->0,
                spec_parse_ip_lines(t1)->0,
                spec_parse_ip_lines(t2)->0,
                spec_parse_ip_lines(t3)->0,
            ],
        )
    }
}

/// Parses one text block into its address list: one address per line,
/// either family.
fn parse_ip_lines(s: &str) -> (r: Option<Vec<IpAddress>>)
    ensures
        match r {
            Some(v) => spec_parse_ip_lines(s@) == Some(v@),
            None => spec_parse_ip_lines(s@) is None,
        },
{
    let n = s.unicode_len();
    let mut cs: Vec<char> = Vec::new();
    let mut i: usize = 0;
    while i < n
        invariant
            i <= n,
            n == s@.len(),
            cs@ =~= s@.take(i as int),
        decreases n - i,
    {
        cs.push(s.get_char(i));
        i = i + 1;
    }
    proof {
        assert(cs@ =~= s@);
        assert(cs@.skip(0) =~= s@);
    }
    let mut parts = split_at_sep(&cs, 0, '\n');
    let last_empty = parts[parts.len() - 1].len() == 0;
    if last_empty {
        let ghost before = parts@;
        parts.pop();
        proof {
            assert(views_of(parts@) =~= views_of(before).drop_last());
        }
    }
    // A final separator closes the last line; now strip any carriage
    // return that preceded a separator.
    let ghost tpieces = views_of(parts@);
    let ghost ls = spec_lines(s@);
    proof {
        assert(ls == tpieces.map_values(|l: Seq<char>| spec_strip_cr(l)));
        assert(ls.len() == tpieces.len());
    }
    let m = parts.len();
    let mut lines: Vec<Vec<char>> = Vec::new();
    while parts.len() > 0
        invariant
            lines@.len() + parts@.len() == m,
            m == tpieces.len(),
            ls == spec_lines(s@),
            ls == tpieces.map_values(|l: Seq<char>| spec_strip_cr(l)),
            ls.len() == m,
            views_of(parts@) == tpieces.skip(lines@.len() as int),
            views_of(lines@) == ls.take(lines@.len() as int),
        decreases parts@.len(),
    {
        let ghost k = lines@.len() as int;
        let ghost pbefore = parts@;
        proof {
            assert(views_of(parts@)[0] == parts@[0]@);
            assert(tpieces.skip(k)[0] == tpieces[k]);
        }
        let mut l = parts.remove(0);
        proof {
            assert(l@ == tpieces[k]);
            assert(parts@ =~= pbefore.skip(1));
            assert forall|x: int|
                0 <= x < parts@.len() implies views_of(parts@)[x] == tpieces.skip(k + 1)[x] by {
                assert(views_of(parts@)[x] == parts@[x]@);
                assert(parts@[x] == pbefore[x + 1]);
                assert(views_of(pbefore)[x + 1] == pbefore[x + 1]@);
                assert(tpieces.skip(k)[x + 1] == tpieces[k + 1 + x]);
            }
            assert(views_of(parts@) =~= tpieces.skip(k + 1));
        }
        let ln = l.len();
        if ln > 0 && l[ln - 1] == '\r' {
            l.pop();
        }
        proof {
            assert(l@ == spec_strip_cr(tpieces[k]));
            assert(ls[k] == spec_strip_cr(tpieces[k]));
        }
        lines.push(l);
        proof {
            assert(views_of(lines@) =~= ls.take(k + 1));
        }
    }
    proof {
        assert(views_of(lines@) =~= ls);
        assert(spec_parse_list(ls.take(0)) == Some(Seq::<IpAddress>::empty()));
    }
    let mut out: Vec<IpAddress> = Vec::new();
    let mut j: usize = 0;
    while j < m
        invariant
            j <= m,
            m == lines@.len(),
            views_of(lines@) == ls,
            ls == spec_lines(s@),
            ls.len() == m,
            spec_parse_list(ls.take(j as int)) == Some(out@),
        decreases m - j,
    {
        let line = &lines[j];
        proof {
            assert(ls[j as int] == line@);
            assert(ls.take(j + 1).drop_last() =~= ls.take(j as int));
            assert(ls.take(j + 1).last() == ls[j as int]);
        }
        match parse_ip_chars(line) {
            Some(ip) => {
                out.push(ip);
                proof {
                    assert(spec_parse_list(ls.take(j + 1)) == Some(out@));
                }
            },
            None => {
                proof {
                    assert(spec_parse_list(ls.take(j + 1)) is None);
                    lemma_parse_list_extend_none(ls, j + 1);
                }
                return None;
            },
        }
        j = j + 1;
    }
    proof {
        assert(ls.take(m as int) =~= ls);
    }
    Some(out)
}

/// Converts the four newline-separated text blocks — addresses, netmasks,
/// gateways, DNS servers — into the corresponding address lists. Every
/// line must be a well-formed address of either family, and the address
/// and netmask blocks must agree in length.
pub fn convert_ip_items(texts: &Vec<String>) -> (r: Result<Vec<Vec<IpAddress>>, ConvertError>)
    requires
        texts@.len() == 4,
    ensures
        match r {
            Ok(v) => spec_convert_ip_items(
                texts@[0]@,
                texts@[1]@,
                texts@[2]@,
                texts@[3]@,
            ) matches Ok(s) && v@.len() == 4 && (forall|x: int|
                0 <= x < 4 ==> (#[trigger] v@[x])@ == s[x]),
            Err(e) => spec_convert_ip_items(texts@[0]@, texts@[1]@, texts@[2]@, texts@[3]@)
                == Err::<Seq<Seq<IpAddress>>, ConvertError>(e),
        },
{
    let ip = match parse_ip_lines(texts[0].as_str()) {
        Some(v) => v,
        None => {
            return Err(ConvertError::BadIpList);
        },
    };
    let netmask = match parse_ip_lines(texts[1].as_str()) {
        Some(v) => v,
        None => {
            return Err(ConvertError::BadNetmaskList);
        },
    };
    let gateway = match parse_ip_lines(texts[2].as_str()) {
        Some(v) => v,
        None => {
            return Err(ConvertError::BadGatewayList);
        },
    };
    let dns = match parse_ip_lines(texts[3].as_str()) {
        Some(v) => v,
        None => {
            return Err(ConvertError::BadDnsList);
        },
    };
    if ip.len() != netmask.len() {
        return Err(ConvertError::LengthMismatch);
    }
    let mut r: Vec<Vec<IpAddress>> = Vec::new();
    r.push(ip);
    r.push(netmask);
    r.push(gateway);
    r.push(dns);
    Ok(r)
}

/// The texts joined with single line separators: one line per item, no
/// trailing separator.
pub open spec fn spec_join_lines(ss: Seq<Seq<char>>) -> Seq<char>
    decreases ss.len(),
{
    if ss.len() == 0 {
        Seq::empty()
    } else if ss.len() == 1 {
        ss[0]
    } else {
        spec_join_lines(ss.drop_last()) + seq!['\n'] + ss.last()
    }
}

/// The character sequences of a list of texts.
pub open spec fn string_views(ss: Seq<String>) -> Seq<Seq<char>> {
    ss.map_values(|s: String| s@)
}

/// Joins texts into one newline-separated block: one line per item, no
/// trailing separator.
pub fn join_lines(items: &Vec<String>) -> (r: String)
    ensures
        r@ == spec_join_lines(string_views(items@)),
{
    let mut out = String::new();
    let n = items.len();
    proof {
        assert(string_views(items@).len() == items@.len());
    }
    let mut i: usize = 0;
    while i < n
        invariant
            i <= n,
            n == items@.len(),
            out@ == spec_join_lines(string_views(items@).take(i as int)),
        decreases n - i,
    {
        if i > 0 {
            out.append("\n");
        }
        out.append(items[i].as_str());
        proof {
            reveal_strlit("\n");
            let sv = string_views(items@);
            assert(sv.take(i + 1).drop_last() =~= sv.take(i as int));
            assert(sv.take(i + 1).last() == sv[i as int]);
            assert(sv[i as int] == items@[i as int]@);
            assert("\n"@ =~= seq!['\n']);
            if i == 0 {
                assert(out@ =~= spec_join_lines(sv.take(1)));
            } else {
                assert(out@ =~= spec_join_lines(sv.take(i + 1)));
            }
        }
        i = i + 1;
    }
    proof {
        assert(string_views(items@).take(n as int) =~= string_views(items@));
    }
    out
}

} // verus!
