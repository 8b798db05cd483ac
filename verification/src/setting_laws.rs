//! What settings and addresses mean, by how they are written.
use vstd::prelude::*;
use vstd::string::*;
use crate::config::{
    channel_of, digits_number, filled, host_of, libset_of, number_of, number_setting, pieces, place_from, scheme_of, text_setting, trimmed_end, trimmed_start, whitespace,
    without_start,
};
use crate::text::{decimal, digit};

verus! {

/// The place of a pattern is the first one from `k` on where it stands.
proof fn lemma_place(s: Seq<char>, pat: Seq<char>, k: int)
    requires
        0 <= k,
    ensures
        ({
            let r = place_from(s, pat, k);
            &&& r <= s.len()
            &&& k <= s.len() ==> k <= r
            &&& k < s.len() && r < s.len() ==> r + pat.len() <= s.len() && s.subrange(
                r,
                r + pat.len() as int,
            ) == pat
            &&& forall|m: int|
                k <= m < r && m + pat.len() <= s.len() ==> #[trigger] s.subrange(
                    m,
                    m + pat.len() as int,
                ) != pat
        }),
    decreases s.len() - k,
{
    if k < s.len() && k + pat.len() <= s.len() && s.subrange(k, k + pat.len() as int) != pat {
        lemma_place(s, pat, k + 1);
    }
}

/// A pattern that stands at a place, and whose first character stands nowhere before, is found
/// there.
proof fn lemma_found(s: Seq<char>, pat: Seq<char>, at: int)
    requires
        pat.len() > 0,
        0 <= at,
        at + pat.len() <= s.len(),
        s.subrange(at, at + pat.len() as int) == pat,
        forall|m: int| 0 <= m < at ==> #[trigger] s[m] != pat[0],
    ensures
        place_from(s, pat, 0) == at,
{
    lemma_place(s, pat, 0);
    let r = place_from(s, pat, 0);
    if r < at {
        assert(s.subrange(r, r + pat.len() as int)[0] == s[r]);
    }
    if at < r {
        assert(s.subrange(at, at + pat.len() as int) != pat);
    }
}

/// A character that does not stand in a text is not found.
proof fn lemma_not_found(s: Seq<char>, pat: Seq<char>)
    requires
        pat.len() > 0,
        !s.contains(pat[0]),
    ensures
        place_from(s, pat, 0) == s.len(),
{
    lemma_place(s, pat, 0);
    let r = place_from(s, pat, 0);
    if r < s.len() {
        assert(s.subrange(r, r + pat.len() as int)[0] == s[r]);
    }
}

/// The scheme of an address is what stands before the colon and the two slashes.
pub proof fn law_addresses_start_with_a_scheme(scheme: Seq<char>, rest: Seq<char>)
    requires
        !scheme.contains(':'),
    ensures
        scheme_of(scheme + "://"@ + rest) == scheme,
{
    reveal_strlit("://");
    let url = scheme + "://"@ + rest;
    let at = scheme.len() as int;
    assert(url.subrange(at, at + 3) =~= "://"@);
    assert forall|m: int| 0 <= m < at implies #[trigger] url[m] != "://"@[0] by {
        assert(scheme.contains(scheme[m]));
    }
    lemma_found(url, "://"@, at);
    assert(url.take(at) =~= scheme);
}

/// Stripping a start that was put before a text that does not have it gives the text.
proof fn lemma_stripped(pat: Seq<char>, s: Seq<char>)
    requires
        pat.len() > 0,
        !pat.is_prefix_of(s),
    ensures
        without_start(pat + s, pat) == s,
{
    assert(pat.is_prefix_of(pat + s));
    assert((pat + s).skip(pat.len() as int) =~= s);
    reveal_with_fuel(without_start, 2);
}

/// The host of a TCP address is what stands between the slashes and the colon; an address
/// without one means this machine. A host in brackets may hold colons.
pub proof fn law_hosts_end_before_the_port(host: Seq<char>, port: Seq<char>)
    requires
        !host.contains(':'),
        host.len() > 0 ==> host[0] != '[',
        host != "tcp"@,
    ensures
        host_of("tcp://"@ + (host + ":"@ + port)) == if host.len() == 0 {
            "127.0.0.1"@
        } else {
            host
        },
{
    reveal_strlit("tcp://");
    reveal_strlit("tcp");
    reveal_strlit(":");
    reveal_strlit("]");
    let rest = host + ":"@ + port;
    let at = host.len() as int;
    if "tcp://"@.is_prefix_of(rest) {
        assert(forall|i: int| 0 <= i < 6 ==> rest[i] == "tcp://"@[i]);
        if at < 3 {
            assert(rest[at] == ':');
        } else if at > 3 {
            assert("tcp://"@[3] == ':');
            assert(rest[3] == ':');
            assert(rest[3] == host[3]);
            assert(host.contains(host[3]));
        } else {
            assert(rest[0] == 't' && rest[1] == 'c' && rest[2] == 'p');
            assert(host =~= "tcp"@);
        }
    }
    lemma_stripped("tcp://"@, rest);
    assert(rest.subrange(at, at + 1) =~= ":"@);
    assert forall|m: int| 0 <= m < at implies #[trigger] rest[m] != ":"@[0] by {
        assert(host.contains(host[m]));
    }
    lemma_found(rest, ":"@, at);
    assert(rest.take(at) =~= host);
    assert(rest[0] != '[') by {
        if at == 0 {
            assert(rest[0] == ':');
        } else {
            assert(rest[0] == host[0]);
        }
    }
    if host.len() == 0 {
        assert(host =~= Seq::empty());
    }
}

/// A host in brackets is taken with them, colons and all.
pub proof fn law_hosts_may_stand_in_brackets(inner: Seq<char>, rest: Seq<char>)
    requires
        !inner.contains(']'),
    ensures
        host_of("tcp://"@ + ("["@ + inner + "]"@ + rest)) == "["@ + inner + "]"@,
{
    reveal_strlit("tcp://");
    reveal_strlit("[");
    reveal_strlit("]");
    let s = "["@ + inner + "]"@ + rest;
    let at = inner.len() as int + 1;
    assert(s[0] == '[');
    if "tcp://"@.is_prefix_of(s) {
        assert("tcp://"@[0] == s[0]);
    }
    lemma_stripped("tcp://"@, s);
    assert(s.subrange(at, at + 1) =~= "]"@);
    assert forall|m: int| 0 <= m < at implies #[trigger] s[m] != "]"@[0] by {
        if m > 0 {
            assert(s[m] == inner[m - 1]);
            assert(inner.contains(inner[m - 1]));
        }
    }
    lemma_found(s, "]"@, at);
    assert(s.take(at + 1) =~= "["@ + inner + "]"@);
}

/// The channel of a peer is within the process, a socket file or a free port, as the control
/// address is; the first two are named by a number of their own and the peer's id.
pub proof fn law_channels_follow_the_control_address(
    rest: Seq<char>,
    nonce: u64,
    id: Seq<char>,
    process: u32,
)
    ensures
        channel_of("inproc://"@ + rest, nonce, id, process) == "inproc://jasp-ch-"@ + decimal(
            nonce as nat,
        ) + "-"@ + id,
        channel_of("ipc://"@ + rest, nonce, id, process) == "ipc:///tmp/jasp-ch-"@ + decimal(
            nonce as nat,
        ) + "-"@ + id + "-"@ + decimal(process as nat) + ".sock"@,
        channel_of("tcp://"@ + rest, nonce, id, process) == "tcp://"@ + host_of("tcp://"@ + rest)
            + ":0"@,
{
    reveal_strlit("inproc");
    reveal_strlit("ipc");
    reveal_strlit("tcp");
    reveal_strlit("://");
    reveal_strlit("inproc://");
    reveal_strlit("ipc://");
    reveal_strlit("tcp://");
    assert("inproc://"@ =~= "inproc"@ + "://"@);
    assert("ipc://"@ =~= "ipc"@ + "://"@);
    assert("tcp://"@ =~= "tcp"@ + "://"@);
    law_addresses_start_with_a_scheme("inproc"@, rest);
    law_addresses_start_with_a_scheme("ipc"@, rest);
    law_addresses_start_with_a_scheme("tcp"@, rest);
    assert("inproc"@.len() == 6 && "ipc"@.len() == 3 && "tcp"@.len() == 3);
    assert("ipc"@[0] == 'i' && "tcp"@[0] == 't');
}

proof fn lemma_digits(n: nat)
    ensures
        digits_number(decimal(n)) == Some(n),
        decimal(n).len() > 0,
        decimal(n)[0] != '+',
    decreases n,
{
    let d = decimal(n);
    if n < 10 {
        assert(d.drop_last() =~= Seq::empty());
        assert(d.last() == digit(n));
        assert(digits_number(d.drop_last()) == Some(0nat));
    } else {
        lemma_digits(n / 10);
        assert(d.drop_last() =~= decimal(n / 10));
        assert(d.last() == digit(n % 10));
        assert(d[0] == decimal(n / 10)[0]);
    }
}

/// A number that is written out in decimal digits, with a plus before it or without, is read as
/// that number.
pub proof fn law_written_numbers_are_read(n: u64)
    ensures
        number_of(decimal(n as nat)) == Some(n),
        number_of("+"@ + decimal(n as nat)) == Some(n),
{
    lemma_digits(n as nat);
    reveal_strlit("+");
    let s = "+"@ + decimal(n as nat);
    assert(s.skip(1) =~= decimal(n as nat));
    assert(s[0] == '+');
}

proof fn lemma_only_digits(s: Seq<char>)
    ensures
        digits_number(s) is Some ==> forall|i: int|
            0 <= i < s.len() ==> '0' <= #[trigger] s[i] <= '9',
    decreases s.len(),
{
    if s.len() > 0 {
        lemma_only_digits(s.drop_last());
        if digits_number(s) is Some {
            assert forall|i: int| 0 <= i < s.len() implies '0' <= #[trigger] s[i] <= '9' by {
                if i < s.len() - 1 {
                    assert(s.drop_last()[i] == s[i]);
                }
            }
        }
    }
}

/// A text is no number where it is empty, or holds anything but digits after a plus.
pub proof fn law_other_texts_are_no_numbers(s: Seq<char>, i: int)
    requires
        s.len() == 0 || (0 <= i < s.len() && !('0' <= s[i] <= '9') && (i > 0 || s[0] != '+')),
    ensures
        number_of(s) is None,
{
    if s.len() > 0 {
        lemma_only_digits(s);
        if s[0] == '+' {
            lemma_only_digits(s.skip(1));
            assert(s.skip(1)[i - 1] == s[i]);
        }
    }
}

/// A text setting is what it is set to, and its default where it is absent.
pub proof fn law_text_settings_are_kept(v: Option<String>, default: Seq<char>)
    ensures
        v is None ==> text_setting(v, default) == default,
        v is Some ==> text_setting(v, default) == v->0@,
{
}

/// A numeric setting that is absent or no number has its default.
pub proof fn law_settings_have_defaults(v: Option<String>, default: u64)
    ensures
        v is None ==> number_setting(v, default) == default,
        v is Some && number_of(v->0@) is None ==> number_setting(v, default) == default,
        v is Some && number_of(v->0@) is Some ==> number_setting(v, default) == number_of(
            v->0@,
        )->0,
{
}

proof fn lemma_trimmed_start(s: Seq<char>)
    ensures
        trimmed_start(s).len() <= s.len(),
        trimmed_start(s) == s.skip(s.len() - trimmed_start(s).len()),
        trimmed_start(s).len() > 0 ==> !whitespace(trimmed_start(s)[0]),
        forall|i: int|
            0 <= i < s.len() - trimmed_start(s).len() ==> whitespace(#[trigger] s[i]),
    decreases s.len(),
{
    if s.len() > 0 && whitespace(s[0]) {
        let d = s.skip(1);
        lemma_trimmed_start(d);
        let t = trimmed_start(s);
        assert(t == trimmed_start(d));
        assert(s.skip(s.len() - t.len()) =~= d.skip(d.len() - t.len()));
        assert forall|i: int| 0 <= i < s.len() - t.len() implies whitespace(#[trigger] s[i]) by {
            if i > 0 {
                assert(d[i - 1] == s[i]);
            }
        }
    } else {
        assert(s.skip(0) =~= s);
    }
}

proof fn lemma_trimmed_end(s: Seq<char>)
    ensures
        trimmed_end(s).len() <= s.len(),
        trimmed_end(s) == s.take(trimmed_end(s).len() as int),
        trimmed_end(s).len() > 0 ==> !whitespace(trimmed_end(s).last()),
        forall|i: int| trimmed_end(s).len() <= i < s.len() ==> whitespace(#[trigger] s[i]),
    decreases s.len(),
{
    if s.len() > 0 && whitespace(s.last()) {
        let d = s.drop_last();
        lemma_trimmed_end(d);
        let t = trimmed_end(s);
        assert(s.take(t.len() as int) =~= d.take(t.len() as int));
        assert forall|i: int| t.len() <= i < s.len() implies whitespace(#[trigger] s[i]) by {
            if i < d.len() {
                assert(d[i] == s[i]);
            }
        }
    } else {
        assert(s.take(s.len() as int) =~= s);
    }
}

/// A list of library paths is read part by part between the colons: the paths of a part and of
/// what follows its colon are those of the whole.
pub proof fn law_library_paths_stand_between_colons(part: Seq<char>, rest: Seq<char>)
    requires
        !part.contains(':'),
    ensures
        libset_of(part + ":"@ + rest) == libset_of(part) + libset_of(rest),
{
    reveal_strlit(":");
    let raw = part + ":"@ + rest;
    let at = part.len() as int;
    assert(raw.subrange(at, at + 1) =~= ":"@);
    assert forall|m: int| 0 <= m < at implies #[trigger] raw[m] != ":"@[0] by {
        assert(part.contains(part[m]));
    }
    lemma_found(raw, ":"@, at);
    assert(raw.take(at) =~= part);
    assert(raw.skip(at + 1) =~= rest);
    lemma_not_found(part, ":"@);
    assert(pieces(part) == seq![part]);
    assert(pieces(raw) == seq![part] + pieces(rest));
    lemma_filled_sum(seq![part], pieces(rest));
}

proof fn lemma_filled_sum(a: Seq<Seq<char>>, b: Seq<Seq<char>>)
    ensures
        filled(a + b) == filled(a) + filled(b),
    decreases b.len(),
{
    if b.len() == 0 {
        assert(a + b =~= a);
        assert(filled(a) + filled(b) =~= filled(a));
    } else {
        let d = b.drop_last();
        lemma_filled_sum(a, d);
        assert((a + b).drop_last() =~= a + d);
        let t = trimmed_end(trimmed_start(b.last()));
        if t.len() > 0 {
            assert((filled(a) + filled(d)).push(t) =~= filled(a) + filled(d).push(t));
        }
    }
}

/// A path without a colon is taken without the blanks around it; blanks alone are no path.
pub proof fn law_library_paths_are_trimmed(
    left: Seq<char>,
    path: Seq<char>,
    right: Seq<char>,
)
    requires
        forall|i: int| 0 <= i < left.len() ==> whitespace(#[trigger] left[i]),
        forall|i: int| 0 <= i < right.len() ==> whitespace(#[trigger] right[i]),
        path.len() > 0 ==> !whitespace(path[0]) && !whitespace(path.last()),
        !(left + path + right).contains(':'),
    ensures
        libset_of(left + path + right) == if path.len() == 0 {
            Seq::<Seq<char>>::empty()
        } else {
            seq![path]
        },
{
    reveal_strlit(":");
    let s = left + path + right;
    lemma_not_found(s, ":"@);
    assert(pieces(s) == seq![s]);
    let a = trimmed_start(s);
    let t = trimmed_end(a);
    lemma_trimmed_start(s);
    lemma_trimmed_end(a);
    let cut = s.len() - a.len();
    if path.len() == 0 {
        if t.len() > 0 {
            assert(a[0] == s[cut]);
            if cut < left.len() {
                assert(s[cut] == left[cut]);
            } else {
                assert(s[cut] == right[cut - left.len()]);
            }
        }
    } else {
        assert(cut == left.len()) by {
            if cut > left.len() {
                assert(s[left.len() as int] == path[0]);
                assert(whitespace(s[left.len() as int]));
            }
            if cut < left.len() {
                assert(a[0] == s[cut]);
                assert(s[cut] == left[cut]);
            }
        }
        assert(a =~= path + right);
        assert(t.len() == path.len()) by {
            if t.len() > path.len() {
                assert(t.last() == a[t.len() - 1]);
                assert(a[t.len() - 1] == right[t.len() - 1 - path.len()]);
            }
            if t.len() < path.len() {
                assert(a[path.len() - 1] == path.last());
                assert(whitespace(a[path.len() - 1]));
            }
        }
        assert(t =~= path);
    }
    reveal_with_fuel(filled, 2);
    assert(seq![s].drop_last() =~= Seq::empty());
    assert(filled(seq![s]) =~= if path.len() == 0 {
        Seq::<Seq<char>>::empty()
    } else {
        seq![path]
    });
}

} // verus!
