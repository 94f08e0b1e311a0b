//! The command model: maps a decoded token sequence to a typed command,
//! validating arity and argument shape. Dispatch is by the lowercased first
//! token; shapes that match no command become `Unknown` rather than failing.
//! The one hard failure is a SET whose PX time-to-live field is not a
//! decimal number: that is a decode error, not an unknown command.
use vstd::prelude::*;

use crate::resp::{copy_bytes, digits_val, is_digit, ProtocolError};

verus! {

/// A typed command, carrying only the arguments its semantics require.
pub enum Command {
    Ping,
    Echo(Vec<u8>),
    SetValue(Vec<u8>, Vec<u8>, Option<u64>),
    Get(Vec<u8>),
    Keys(Vec<u8>),
    ConfigGet(Vec<u8>),
    Unknown,
}

/// The mathematical model of a `Command`.
pub enum CommandView {
    Ping,
    Echo(Seq<u8>),
    SetValue(Seq<u8>, Seq<u8>, Option<u64>),
    Get(Seq<u8>),
    Keys(Seq<u8>),
    ConfigGet(Seq<u8>),
    Unknown,
}

impl View for Command {
    type V = CommandView;

    open spec fn view(&self) -> CommandView {
        match self {
            Command::Ping => CommandView::Ping,
            Command::Echo(m) => CommandView::Echo(m@),
            Command::SetValue(k, v, e) => CommandView::SetValue(k@, v@, *e),
            Command::Get(k) => CommandView::Get(k@),
            Command::Keys(p) => CommandView::Keys(p@),
            Command::ConfigGet(p) => CommandView::ConfigGet(p@),
            Command::Unknown => CommandView::Unknown,
        }
    }
}

/// ASCII lowercasing of one byte.
pub open spec fn to_lower(b: u8) -> u8 {
    if 65 <= b <= 90 {
        (b + 32) as u8
    } else {
        b
    }
}

/// ASCII lowercasing of a byte string.
pub open spec fn lower(s: Seq<u8>) -> Seq<u8> {
    s.map_values(|b: u8| to_lower(b))
}

/// The bytes of `ping`.
pub open spec fn name_ping() -> Seq<u8> {
    seq![112u8, 105u8, 110u8, 103u8]
}

/// The bytes of `echo`.
pub open spec fn name_echo() -> Seq<u8> {
    seq![101u8, 99u8, 104u8, 111u8]
}

/// The bytes of `set`.
pub open spec fn name_set() -> Seq<u8> {
    seq![115u8, 101u8, 116u8]
}

/// The bytes of `get`.
pub open spec fn name_get() -> Seq<u8> {
    seq![103u8, 101u8, 116u8]
}

/// The bytes of `keys`.
pub open spec fn name_keys() -> Seq<u8> {
    seq![107u8, 101u8, 121u8, 115u8]
}

/// The bytes of `config`.
pub open spec fn name_config() -> Seq<u8> {
    seq![99u8, 111u8, 110u8, 102u8, 105u8, 103u8]
}

/// The bytes of `px`.
pub open spec fn name_px() -> Seq<u8> {
    seq![112u8, 120u8]
}

/// A non-empty all-digit string whose value fits in u64.
pub open spec fn is_u64_digits(s: Seq<u8>) -> bool {
    &&& s.len() > 0
    &&& forall|i: int| 0 <= i < s.len() ==> #[trigger] is_digit(s[i])
    &&& digits_val(s) <= u64::MAX
}

/// The command denoted by a token sequence; `None` is the one fatal shape,
/// a SET whose PX time-to-live field is not a decimal u64.
pub open spec fn interpret_view(t: Seq<Seq<u8>>) -> Option<CommandView> {
    if t.len() == 0 {
        Some(CommandView::Unknown)
    } else if lower(t[0]) == name_ping() {
        Some(CommandView::Ping)
    } else if lower(t[0]) == name_echo() {
        if t.len() == 2 {
            Some(CommandView::Echo(t[1]))
        } else {
            Some(CommandView::Unknown)
        }
    } else if lower(t[0]) == name_set() {
        if t.len() == 3 {
            Some(CommandView::SetValue(t[1], t[2], None))
        } else if t.len() == 5 && lower(t[3]) == name_px() {
            if is_u64_digits(t[4]) {
                Some(CommandView::SetValue(t[1], t[2], Some(digits_val(t[4]) as u64)))
            } else {
                None
            }
        } else {
            Some(CommandView::Unknown)
        }
    } else if lower(t[0]) == name_get() {
        if t.len() == 2 {
            Some(CommandView::Get(t[1]))
        } else {
            Some(CommandView::Unknown)
        }
    } else if lower(t[0]) == name_keys() {
        if t.len() >= 2 {
            Some(CommandView::Keys(t[1]))
        } else {
            Some(CommandView::Unknown)
        }
    } else if lower(t[0]) == name_config() {
        if t.len() >= 3 && lower(t[1]) == name_get() {
            Some(CommandView::ConfigGet(t[2]))
        } else {
            Some(CommandView::Unknown)
        }
    } else {
        Some(CommandView::Unknown)
    }
}

/// Case-insensitive ASCII equality of a token with a pattern.
pub(crate) fn eq_fold(t: &Vec<u8>, pat: &[u8]) -> (r: bool)
    ensures
        r == (lower(t@) == lower(pat@)),
{
    if t.len() != pat.len() {
        return false;
    }
    let mut i: usize = 0;
    while i < t.len()
        invariant
            i <= t@.len(),
            t@.len() == pat@.len(),
            forall|j: int| 0 <= j < i ==> to_lower(t@[j]) == to_lower(pat@[j]),
        decreases t@.len() - i,
    {
        let a = t[i];
        let b = pat[i];
        let la = if 65 <= a && a <= 90 {
            a + 32
        } else {
            a
        };
        let lb = if 65 <= b && b <= 90 {
            b + 32
        } else {
            b
        };
        if la != lb {
            proof {
                assert(lower(t@)[i as int] != lower(pat@)[i as int]);
            }
            return false;
        }
        i = i + 1;
    }
    proof {
        assert(lower(t@) =~= lower(pat@));
    }
    true
}

/// Parses a token as a decimal u64; fails on an empty token, a non-digit
/// byte, or a value that does not fit.
pub fn parse_u64(t: &Vec<u8>) -> (r: Option<u64>)
    ensures
        match r {
            Some(v) => is_u64_digits(t@) && v == digits_val(t@),
            None => !is_u64_digits(t@),
        },
{
    let ghost s = t@;
    if t.len() == 0 {
        return None;
    }
    let mut i: usize = 0;
    let mut val: u128 = 0;
    while i < t.len()
        invariant
            s == t@,
            i <= s.len(),
            forall|j: int| 0 <= j < i ==> #[trigger] is_digit(s[j]),
            val == digits_val(s.subrange(0, i as int)),
            val <= u64::MAX,
        decreases s.len() - i,
    {
        let b = t[i];
        if b < 48 || b > 57 {
            proof {
                assert(!is_digit(s[i as int]));
            }
            return None;
        }
        let next: u128 = val * 10 + ((b - 48) as u128);
        proof {
            assert(s.subrange(0, i + 1) =~= s.subrange(0, i as int).push(s[i as int]));
            assert(s.subrange(0, i + 1).drop_last() =~= s.subrange(0, i as int));
        }
        if next > u64::MAX as u128 {
            proof {
                if is_u64_digits(s) {
                    crate::resp::lemma_digits_val_extend(s, 0, i + 1, s.len() as int);
                    assert(s.subrange(0, s.len() as int) =~= s);
                }
            }
            return None;
        }
        val = next;
        i = i + 1;
    }
    proof {
        assert(s.subrange(0, s.len() as int) =~= s);
    }
    Some(val as u64)
}

/// Maps a token sequence to a command. Total but for one shape: a SET whose
/// PX time-to-live token is not a decimal u64 is a fatal decode error.
pub fn interpret(tokens: &Vec<Vec<u8>>) -> (r: Result<Command, ProtocolError>)
    ensures
        match r {
            Ok(c) => interpret_view(tokens.deep_view()) == Some(c@),
            Err(_) => interpret_view(tokens.deep_view()) is None,
        },
{
    let ghost t = tokens.deep_view();
    proof {
        assert(t.len() == tokens@.len());
        assert(forall|i: int| 0 <= i < t.len() ==> t[i] =~= #[trigger] tokens@[i]@);
    }
    if tokens.len() == 0 {
        return Ok(Command::Unknown);
    }
    let ping_pat: [u8; 4] = [112, 105, 110, 103];
    let echo_pat: [u8; 4] = [101, 99, 104, 111];
    let set_pat: [u8; 3] = [115, 101, 116];
    let get_pat: [u8; 3] = [103, 101, 116];
    let keys_pat: [u8; 4] = [107, 101, 121, 115];
    let config_pat: [u8; 6] = [99, 111, 110, 102, 105, 103];
    let px_pat: [u8; 2] = [112, 120];
    proof {
        assert(lower(ping_pat@) =~= name_ping());
        assert(lower(echo_pat@) =~= name_echo());
        assert(lower(set_pat@) =~= name_set());
        assert(lower(get_pat@) =~= name_get());
        assert(lower(keys_pat@) =~= name_keys());
        assert(lower(config_pat@) =~= name_config());
        assert(lower(px_pat@) =~= name_px());
    }
    if eq_fold(&tokens[0], ping_pat.as_slice()) {
        Ok(Command::Ping)
    } else if eq_fold(&tokens[0], echo_pat.as_slice()) {
        if tokens.len() == 2 {
            Ok(Command::Echo(copy_bytes(&tokens[1])))
        } else {
            Ok(Command::Unknown)
        }
    } else if eq_fold(&tokens[0], set_pat.as_slice()) {
        if tokens.len() == 3 {
            Ok(Command::SetValue(copy_bytes(&tokens[1]), copy_bytes(&tokens[2]), None))
        } else if tokens.len() == 5 && eq_fold(&tokens[3], px_pat.as_slice()) {
            match parse_u64(&tokens[4]) {
                Some(ms) => Ok(
                    Command::SetValue(copy_bytes(&tokens[1]), copy_bytes(&tokens[2]), Some(ms)),
                ),
                None => Err(ProtocolError),
            }
        } else {
            Ok(Command::Unknown)
        }
    } else if eq_fold(&tokens[0], get_pat.as_slice()) {
        if tokens.len() == 2 {
            Ok(Command::Get(copy_bytes(&tokens[1])))
        } else {
            Ok(Command::Unknown)
        }
    } else if eq_fold(&tokens[0], keys_pat.as_slice()) {
        if tokens.len() >= 2 {
            Ok(Command::Keys(copy_bytes(&tokens[1])))
        } else {
            Ok(Command::Unknown)
        }
    } else if eq_fold(&tokens[0], config_pat.as_slice()) {
        if tokens.len() >= 3 && eq_fold(&tokens[1], get_pat.as_slice()) {
            Ok(Command::ConfigGet(copy_bytes(&tokens[2])))
        } else {
            Ok(Command::Unknown)
        }
    } else {
        Ok(Command::Unknown)
    }
}

/// Decodes one request frame and maps it to a command: the composition of
/// `decode_request` and `interpret`. Fails on a malformed frame or on a
/// SET whose PX time-to-live field is not a decimal u64.
pub fn parse_command(input: &[u8]) -> (r: Result<Command, ProtocolError>)
    ensures
        match r {
            Ok(c) => crate::resp::request_ok(input@) && interpret_view(
                crate::resp::request_tokens(input@),
            ) == Some(c@),
            Err(_) => !crate::resp::request_ok(input@) || interpret_view(
                crate::resp::request_tokens(input@),
            ) is None,
        },
{
    let tokens = match crate::resp::decode_request(input) {
        Ok(t) => t,
        Err(e) => {
            return Err(e);
        },
    };
    interpret(&tokens)
}

/// Interpretation is total: every token sequence maps to a command, except
/// a five-token SET with a PX marker whose time-to-live field is not a
/// decimal number fitting u64.
pub proof fn lemma_interpret_total(t: Seq<Seq<u8>>)
    requires
        !(t.len() == 5 && lower(t[0]) == name_set() && lower(t[3]) == name_px() && !is_u64_digits(
            t[4],
        )),
    ensures
        interpret_view(t) is Some,
{
}

} // verus!
