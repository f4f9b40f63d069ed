use vstd::prelude::*;

use super::error::ConfigError;
use crate::abi::{GptGuid, parse_guid_spec};

verus! {

/// The largest configuration file accepted.
pub const MAX_CONFIG_SIZE: usize = 4096;

/// The loader configuration: which partition holds the root filesystem.
#[derive(Clone, Copy, Debug, PartialEq, Eq)]
pub struct LoaderConfig {
    pub root_guid: GptGuid,
}

/// `root-guid`, the only key a configuration may set.
pub open spec fn root_guid_key() -> Seq<u8> {
    seq![0x72u8, 0x6f, 0x6f, 0x74, 0x2d, 0x67, 0x75, 0x69, 0x64]
}

/// ASCII whitespace as `u8::is_ascii_whitespace` defines it.
pub open spec fn is_ascii_space(b: u8) -> bool {
    b == 0x20 || b == 0x09 || b == 0x0a || b == 0x0c || b == 0x0d
}

/// The index of the first `byte` at or after `i`, or the length of `s`.
pub open spec fn next_index_of(s: Seq<u8>, byte: u8, i: int) -> int
    decreases s.len() - i,
{
    if i >= s.len() {
        s.len() as int
    } else if s[i] == byte {
        i
    } else {
        next_index_of(s, byte, i + 1)
    }
}

/// `next_index_of` never goes back and stays within the sequence.
pub proof fn lemma_next_index_of(s: Seq<u8>, byte: u8, i: int)
    requires
        0 <= i <= s.len(),
    ensures
        i <= next_index_of(s, byte, i) <= s.len(),
        next_index_of(s, byte, i) < s.len() ==> s[next_index_of(s, byte, i)] == byte,
        forall|j: int| i <= j < next_index_of(s, byte, i) ==> s[j] != byte,
    decreases s.len() - i,
{
    if i < s.len() && s[i] != byte {
        lemma_next_index_of(s, byte, i + 1);
    }
}

/// The GUID a single configuration line sets, or why the line is rejected; `have_guid`
/// says whether an earlier line already set it.
pub open spec fn line_check(line: Seq<u8>, have_guid: bool) -> Result<Seq<u8>, ConfigError> {
    let sep = next_index_of(line, 0x3d, 0);
    if line.len() == 0 {
        Err(ConfigError::InvalidFormat)
    } else if exists|i: int| 0 <= i < line.len() && is_ascii_space(#[trigger] line[i]) {
        Err(ConfigError::Whitespace)
    } else if sep == line.len() {
        Err(ConfigError::InvalidFormat)
    } else if line.subrange(0, sep) != root_guid_key() {
        Err(ConfigError::UnknownKey)
    } else if have_guid {
        Err(ConfigError::DuplicateRootGuid)
    } else {
        match parse_guid_spec(line.subrange(sep + 1, line.len() as int)) {
            Some(g) => Ok(g),
            None => Err(ConfigError::InvalidRootGuid),
        }
    }
}

/// The GUID set by the lines of `body` from `start` on, given what earlier lines set.
pub open spec fn lines_result(body: Seq<u8>, start: int, found: Option<Seq<u8>>) -> Result<
    Seq<u8>,
    ConfigError,
>
    decreases body.len() - start,
{
    let end = next_index_of(body, 0x0a, start);
    if start < 0 || start > body.len() {
        Err(ConfigError::MissingRootGuid)
    } else {
        match line_check(body.subrange(start, end), found is Some) {
            Err(e) => Err(e),
            Ok(g) => if end >= body.len() {
                Ok(g)
            } else {
                proof {
                    lemma_next_index_of(body, 0x0a, start);
                }
                lines_result(body, end + 1, Some(g))
            },
        }
    }
}

/// The root GUID a configuration file names, or why the file is rejected.
pub open spec fn config_result(b: Seq<u8>) -> Result<Seq<u8>, ConfigError> {
    if b.len() > MAX_CONFIG_SIZE {
        Err(ConfigError::TooLarge)
    } else if exists|i: int| 0 <= i < b.len() && #[trigger] b[i] == 0 {
        Err(ConfigError::NulByte)
    } else if exists|i: int| 0 <= i < b.len() && #[trigger] b[i] >= 0x80 {
        Err(ConfigError::NonAscii)
    } else if b.len() == 0 {
        Err(ConfigError::MissingRootGuid)
    } else if b.last() != 0x0a {
        Err(ConfigError::MissingTrailingNewline)
    } else if b.len() == 1 {
        Err(ConfigError::MissingRootGuid)
    } else {
        lines_result(b.subrange(0, b.len() - 1), 0, None)
    }
}

fn find_byte(s: &[u8], byte: u8, start: usize) -> (r: usize)
    requires
        start <= s@.len(),
    ensures
        r == next_index_of(s@, byte, start as int),
        start <= r <= s@.len(),
{
    let mut i = start;
    while i < s.len()
        invariant
            start <= i <= s@.len(),
            next_index_of(s@, byte, start as int) == next_index_of(s@, byte, i as int),
        decreases s@.len() - i,
    {
        if s[i] == byte {
            return i;
        }
        i += 1;
    }
    i
}

/// Checks one configuration line and decodes the GUID it sets.
pub fn check_line(line: &[u8], have_guid: bool) -> (r: Result<GptGuid, ConfigError>)
    ensures
        match line_check(line@, have_guid) {
            Err(e) => r == Err::<GptGuid, ConfigError>(e),
            Ok(g) => r matches Ok(guid) && guid.0@ == g,
        },
{
    if line.len() == 0 {
        return Err(ConfigError::InvalidFormat);
    }
    let mut i: usize = 0;
    while i < line.len()
        invariant
            i <= line@.len(),
            forall|j: int| 0 <= j < i ==> !is_ascii_space(#[trigger] line@[j]),
        decreases line@.len() - i,
    {
        let b = line[i];
        if b == 0x20 || b == 0x09 || b == 0x0a || b == 0x0c || b == 0x0d {
            assert(is_ascii_space(line@[i as int]));
            return Err(ConfigError::Whitespace);
        }
        i += 1;
    }
    let sep = find_byte(line, 0x3d, 0);
    if sep == line.len() {
        return Err(ConfigError::InvalidFormat);
    }
    let key = vstd::slice::slice_subrange(line, 0, sep);
    let is_root_key = key.len() == 9 && key[0] == 0x72 && key[1] == 0x6f && key[2] == 0x6f
        && key[3] == 0x74 && key[4] == 0x2d && key[5] == 0x67 && key[6] == 0x75 && key[7] == 0x69
        && key[8] == 0x64;
    if !is_root_key {
        proof {
            if key@ == root_guid_key() {
                assert(key@[0] == 0x72 && key@[1] == 0x6f && key@[2] == 0x6f && key@[3] == 0x74);
                assert(key@[4] == 0x2d && key@[5] == 0x67 && key@[6] == 0x75 && key@[7] == 0x69);
                assert(key@[8] == 0x64);
            }
        }
        return Err(ConfigError::UnknownKey);
    }
    assert(key@ =~= root_guid_key());
    if have_guid {
        return Err(ConfigError::DuplicateRootGuid);
    }
    let value = vstd::slice::slice_subrange(line, sep + 1, line.len());
    match GptGuid::parse_bytes(value) {
        Ok(guid) => Ok(guid),
        Err(_) => Err(ConfigError::InvalidRootGuid),
    }
}

/// Parses the loader configuration: exactly one `root-guid=<canonical GUID>` line,
/// newline-terminated, ASCII, without whitespace, NUL bytes or other keys.
pub fn parse_config(bytes: &[u8]) -> (r: Result<LoaderConfig, ConfigError>)
    ensures
        match config_result(bytes@) {
            Err(e) => r == Err::<LoaderConfig, ConfigError>(e),
            Ok(g) => r matches Ok(config) && config.root_guid.0@ == g,
        },
{
    if bytes.len() > MAX_CONFIG_SIZE {
        return Err(ConfigError::TooLarge);
    }
    let mut i: usize = 0;
    while i < bytes.len()
        invariant
            i <= bytes@.len(),
            bytes@.len() <= MAX_CONFIG_SIZE,
            forall|j: int| 0 <= j < i ==> #[trigger] bytes@[j] != 0,
        decreases bytes@.len() - i,
    {
        if bytes[i] == 0 {
            assert(bytes@[i as int] == 0);
            return Err(ConfigError::NulByte);
        }
        i += 1;
    }
    let mut i: usize = 0;
    while i < bytes.len()
        invariant
            i <= bytes@.len(),
            bytes@.len() <= MAX_CONFIG_SIZE,
            forall|j: int| 0 <= j < bytes@.len() ==> #[trigger] bytes@[j] != 0,
            forall|j: int| 0 <= j < i ==> #[trigger] bytes@[j] < 0x80,
        decreases bytes@.len() - i,
    {
        if bytes[i] >= 0x80 {
            assert(bytes@[i as int] >= 0x80);
            return Err(ConfigError::NonAscii);
        }
        i += 1;
    }
    if bytes.len() == 0 {
        return Err(ConfigError::MissingRootGuid);
    }
    if bytes[bytes.len() - 1] != 0x0a {
        return Err(ConfigError::MissingTrailingNewline);
    }
    let body = vstd::slice::slice_subrange(bytes, 0, bytes.len() - 1);
    if body.len() == 0 {
        return Err(ConfigError::MissingRootGuid);
    }
    let ghost result = lines_result(body@, 0, None);
    assert(body@ =~= bytes@.subrange(0, bytes@.len() - 1));
    assert(config_result(bytes@) == result);
    let mut found: Option<GptGuid> = None;
    let mut start: usize = 0;
    loop
        invariant
            start <= body@.len(),
            config_result(bytes@) == result,
            lines_result(body@, start as int, match found {
                Some(g) => Some(g.0@),
                None => None,
            }) == result,
        decreases body@.len() - start,
    {
        let end = find_byte(body, 0x0a, start);
        let line = vstd::slice::slice_subrange(body, start, end);
        let guid = check_line(line, found.is_some())?;
        if end == body.len() {
            return Ok(LoaderConfig { root_guid: guid });
        }
        found = Some(guid);
        start = end + 1;
    }
}

} // verus!
