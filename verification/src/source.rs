//! Where events come from: homeservers and files of lines.

use vstd::prelude::*;
use vstd::string::{StrSliceExecFns, StringExecFns};
use crate::primitives::{uppercase, uppercase_text};

verus! {

/// The text starts with the prefix at a place.
pub open spec fn prefix_at(text: Seq<char>, place: int, prefix: Seq<char>) -> bool {
    place + prefix.len() <= text.len() && text.subrange(place, place + prefix.len()) == prefix
}

/// The text without the prefix, however often it stands in front.
pub open spec fn without_prefix(text: Seq<char>, prefix: Seq<char>) -> Seq<char>
    decreases text.len(),
{
    if prefix.len() > 0 && prefix_at(text, 0, prefix) {
        without_prefix(text.skip(prefix.len() as int), prefix)
    } else {
        text
    }
}

/// The address of a homeserver: with a scheme as it is, else under `https`.
pub open spec fn server_address(homeserver: Seq<char>) -> Seq<char> {
    if prefix_at(homeserver, 0, "http://"@) || prefix_at(homeserver, 0, "https://"@) {
        homeserver
    } else {
        "https://"@ + homeserver
    }
}

/// The character of an environment variable that stands for a character of a
/// domain.
pub open spec fn variable_char(c: char) -> char {
    if c == '.' || c == '-' {
        '_'
    } else {
        c
    }
}

/// The domain of a homeserver, as it is written in environment variables.
pub open spec fn variable_domain(homeserver: Seq<char>) -> Seq<char> {
    uppercase_text(
        without_prefix(without_prefix(homeserver, "https://"@), "http://"@),
    ).map_values(|c: char| variable_char(c))
}

fn starts_at(text: &str, place: usize, prefix: &str) -> (result: bool)
    requires
        place <= text@.len(),
    ensures
        result == prefix_at(text@, place as int, prefix@),
{
    let length: usize = text.unicode_len();
    let wanted: usize = prefix.unicode_len();
    if length - place < wanted {
        return false;
    }
    let mut index: usize = 0;
    while index < wanted
        invariant
            wanted == prefix@.len(),
            length == text@.len(),
            place + wanted <= length,
            index <= wanted,
            forall|i: int| 0 <= i < index ==> text@[place + i] == #[trigger] prefix@[i],
        decreases wanted - index,
    {
        if text.get_char(place + index) != prefix.get_char(index) {
            proof {
                let part = text@.subrange(place as int, place + prefix@.len());
                assert(part[index as int] != prefix@[index as int]);
            }
            return false;
        }
        index = index + 1;
    }
    proof {
        assert(text@.subrange(place as int, place + prefix@.len()) =~= prefix@);
    }
    true
}

/// Takes a prefix off a text, however often it stands in front.
fn strip<'a>(text: &'a str, prefix: &str) -> (rest: &'a str)
    requires
        prefix@.len() > 0,
    ensures
        rest@ == without_prefix(text@, prefix@),
{
    let length: usize = text.unicode_len();
    let step: usize = prefix.unicode_len();
    let mut start: usize = 0;
    proof {
        assert(text@.skip(0) =~= text@);
    }
    while starts_at(text, start, prefix)
        invariant
            length == text@.len(),
            step == prefix@.len(),
            step > 0,
            start <= length,
            without_prefix(text@.skip(start as int), prefix@) == without_prefix(text@, prefix@),
        decreases length - start,
    {
        proof {
            let rest = text@.skip(start as int);
            assert(rest.subrange(0, prefix@.len() as int) =~= text@.subrange(
                start as int,
                start + prefix@.len(),
            ));
            assert(rest.skip(prefix@.len() as int) =~= text@.skip(start + step));
        }
        start = start + step;
    }
    proof {
        let rest = text@.skip(start as int);
        if prefix_at(rest, 0, prefix@) {
            assert(rest.subrange(0, prefix@.len() as int) =~= text@.subrange(
                start as int,
                start + prefix@.len(),
            ));
        }
        assert(text@.subrange(start as int, length as int) =~= rest);
    }
    text.substring_char(start, length)
}

/// The address under which a homeserver tells the state of a room.
#[must_use]
pub fn state_url(homeserver: &str, room_id: &str) -> (url: String)
    ensures
        url@ == server_address(homeserver@) + "/_matrix/client/v3/rooms/"@ + room_id@
            + "/state"@,
{
    let mut url: String = if starts_at(homeserver, 0, "http://") || starts_at(
        homeserver,
        0,
        "https://",
    ) {
        String::from_str(homeserver)
    } else {
        let mut secure: String = String::from_str("https://");
        secure.append(homeserver);
        secure
    };
    url.append("/_matrix/client/v3/rooms/");
    url.append(room_id);
    url.append("/state");
    url
}

/// The environment variable with the access token for a homeserver.
#[must_use]
pub fn token_variable(homeserver: &str) -> (name: String)
    ensures
        name@ == "MTOKEN_"@ + variable_domain(homeserver@),
{
    proof {
        reveal_strlit("https://");
        reveal_strlit("http://");
    }
    let domain: &str = strip(strip(homeserver, "https://"), "http://");
    let upper: String = uppercase(domain);
    let text: &str = upper.as_str();
    let length: usize = text.unicode_len();
    let mut name: String = String::from_str("MTOKEN_");
    let mut index: usize = 0;
    let ghost mapped = text@.map_values(|c: char| variable_char(c));
    proof {
        assert("MTOKEN_"@ + mapped.take(0) =~= "MTOKEN_"@);
    }
    while index < length
        invariant
            length == text@.len(),
            index <= length,
            mapped == text@.map_values(|c: char| variable_char(c)),
            name@ == "MTOKEN_"@ + mapped.take(index as int),
        decreases length - index,
    {
        let c: char = text.get_char(index);
        proof {
            reveal_strlit("_");
            assert(mapped.take(index + 1) =~= mapped.take(index as int).push(
                variable_char(text@[index as int]),
            ));
            assert(text@.subrange(index as int, index + 1) =~= seq![text@[index as int]]);
            assert("_"@ =~= seq!['_']);
        }
        if c == '.' || c == '-' {
            name.append("_");
        } else {
            name.append(text.substring_char(index, index + 1));
        }
        proof {
            assert(name@ =~= "MTOKEN_"@ + mapped.take(index + 1));
        }
        index = index + 1;
    }
    proof {
        assert(mapped.take(length as int) =~= mapped);
    }
    name
}

/// A white space character.
pub open spec fn is_white(c: u32) -> bool {
    ||| 0x9 <= c <= 0xd
    ||| c == 0x20
    ||| c == 0x85
    ||| c == 0xa0
    ||| c == 0x1680
    ||| 0x2000 <= c <= 0x200a
    ||| c == 0x2028
    ||| c == 0x2029
    ||| c == 0x202f
    ||| c == 0x205f
    ||| c == 0x3000
}

/// A line with something other than white space.
pub open spec fn has_data(line: Seq<char>) -> bool {
    exists|i: int| 0 <= i < line.len() && !is_white(#[trigger] line[i] as u32)
}

fn line_has_data(line: &str) -> (result: bool)
    ensures
        result == has_data(line@),
{
    let length: usize = line.unicode_len();
    let mut index: usize = 0;
    while index < length
        invariant
            length == line@.len(),
            index <= length,
            forall|i: int| 0 <= i < index ==> is_white(#[trigger] line@[i] as u32),
        decreases length - index,
    {
        let c: u32 = line.get_char(index) as u32;
        let white: bool = (0x9 <= c && c <= 0xd) || c == 0x20 || c == 0x85 || c == 0xa0 || c
            == 0x1680 || (0x2000 <= c && c <= 0x200a) || c == 0x2028 || c == 0x2029 || c == 0x202f
            || c == 0x205f || c == 0x3000;
        if !white {
            proof {
                assert(!is_white(line@[index as int] as u32));
            }
            return true;
        }
        index = index + 1;
    }
    false
}

/// The lines with something other than white space, in order.
pub open spec fn data_lines(lines: Seq<Seq<char>>) -> Seq<Seq<char>> {
    lines.filter(|line: Seq<char>| has_data(line))
}

/// Texts one behind the other.
pub open spec fn joined(texts: Seq<Seq<char>>) -> Seq<char>
    decreases texts.len(),
{
    if texts.len() == 0 {
        Seq::empty()
    } else {
        joined(texts.drop_last()) + texts.last()
    }
}

/// Lines by their contents.
pub open spec fn line_texts(lines: Seq<String>) -> Seq<Seq<char>> {
    Seq::new(lines.len(), |i: int| lines[i]@)
}

/// The name of a file's format, whatever its case.
pub open spec fn names_lines(extension: Seq<char>) -> bool {
    &&& extension.len() == 5
    &&& extension[0] == 'j' || extension[0] == 'J'
    &&& extension[1] == 's' || extension[1] == 'S'
    &&& extension[2] == 'o' || extension[2] == 'O'
    &&& extension[3] == 'n' || extension[3] == 'N'
    &&& extension[4] == 'l' || extension[4] == 'L'
}

/// Whether a file with this extension holds one value per line.
#[must_use]
pub fn holds_lines(extension: &str) -> (result: bool)
    ensures
        result == names_lines(extension@),
{
    if extension.unicode_len() != 5 {
        return false;
    }
    let (a, b): (char, char) = (extension.get_char(0), extension.get_char(1));
    let (c, d): (char, char) = (extension.get_char(2), extension.get_char(3));
    let e: char = extension.get_char(4);
    (a == 'j' || a == 'J') && (b == 's' || b == 'S') && (c == 'o' || c == 'O') && (d == 'n' || d
        == 'N') && (e == 'l' || e == 'L')
}

/// Why a file gives no events.
#[derive(Debug, Clone, Copy, PartialEq, Eq, Structural)]
pub enum NoData {
    /// Nothing in a file of one value per line.
    Lines,
    /// Nothing in a file of one value.
    Document,
}

impl NoData {
    /// The error as text.
    pub fn message(&self) -> (text: String)
        ensures
            text@ == match *self {
                NoData::Lines => "No input data provided in JSONL file."@,
                NoData::Document => "No input data provided before empty line or EOF."@,
            },
    {
        match self {
            NoData::Lines => String::from_str("No input data provided in JSONL file."),
            NoData::Document => String::from_str("No input data provided before empty line or EOF."),
        }
    }
}

/// The values of a file of one value per line: its lines without the blank ones.
///
/// # Errors
/// Returns [`NoData::Lines`] if every line is blank.
pub fn records(lines: &Vec<String>) -> (result: Result<Vec<String>, NoData>)
    ensures
        match result {
            Ok(values) => values@.len() > 0 && line_texts(values@) == data_lines(
                line_texts(lines@),
            ),
            Err(error) => error == NoData::Lines && data_lines(line_texts(lines@)).len() == 0,
        },
{
    let ghost texts = line_texts(lines@);
    let mut values: Vec<String> = Vec::new();
    let mut index: usize = 0;
    proof {
        assert(texts.take(0) =~= Seq::<Seq<char>>::empty());
        reveal(Seq::filter);
        assert(line_texts(values@) =~= data_lines(texts.take(0)));
    }
    while index < lines.len()
        invariant
            index <= lines.len(),
            texts == line_texts(lines@),
            line_texts(values@) == data_lines(texts.take(index as int)),
        decreases lines.len() - index,
    {
        let line: &str = lines[index].as_str();
        let ghost before = values@;
        let kept: bool = line_has_data(line);
        if kept {
            values.push(String::from_str(line));
        }
        proof {
            let next = texts.take(index + 1);
            assert(next.drop_last() =~= texts.take(index as int));
            assert(next.last() == line@);
            reveal(Seq::filter);
            if kept {
                assert(line_texts(values@) =~= line_texts(before).push(line@));
            }
        }
        index = index + 1;
    }
    proof {
        assert(texts.take(index as int) =~= texts);
        assert(line_texts(values@).len() == values@.len());
    }
    if values.len() == 0 {
        Err(NoData::Lines)
    } else {
        Ok(values)
    }
}

/// The text of a file of one value: its lines, with their ends, without the
/// blank ones.
///
/// # Errors
/// Returns [`NoData::Document`] if every line is blank.
pub fn document(lines: &Vec<String>) -> (result: Result<String, NoData>)
    ensures
        match result {
            Ok(text) => data_lines(line_texts(lines@)).len() > 0 && text@ == joined(
                data_lines(line_texts(lines@)),
            ),
            Err(error) => error == NoData::Document && data_lines(line_texts(lines@)).len() == 0,
        },
{
    let kept: Vec<String> = match records(lines) {
        Ok(kept) => kept,
        Err(_) => return Err(NoData::Document),
    };
    let ghost texts = line_texts(kept@);
    let mut text: String = String::from_str("");
    let mut index: usize = 0;
    proof {
        reveal_strlit("");
        assert(text@ =~= joined(texts.take(0)));
    }
    while index < kept.len()
        invariant
            index <= kept.len(),
            texts == line_texts(kept@),
            text@ == joined(texts.take(index as int)),
        decreases kept.len() - index,
    {
        text.append(kept[index].as_str());
        proof {
            assert(texts.take(index + 1).drop_last() =~= texts.take(index as int));
        }
        index = index + 1;
    }
    proof {
        assert(texts.take(index as int) =~= texts);
    }
    Ok(text)
}

/// A homeserver that names a scheme keeps its address, and any other is reached under
/// `https`.
pub proof fn address_by_scheme(host: Seq<char>)
    ensures
        server_address("http://"@ + host) == "http://"@ + host,
        server_address("https://"@ + host) == "https://"@ + host,
        host.len() == 0 || host[0] != 'h' ==> server_address(host) == "https://"@ + host,
{
    reveal_strlit("http://");
    reveal_strlit("https://");
    let (plain, secure) = ("http://"@, "https://"@);
    assert((plain + host).subrange(0, 7) =~= plain);
    assert((secure + host).subrange(0, 8) =~= secure);
    if host.len() > 0 && host[0] != 'h' {
        assert(plain[0] == 'h' && secure[0] == 'h');
        if host.len() >= 7 {
            assert(host.subrange(0, 7)[0] == host[0]);
        }
        if host.len() >= 8 {
            assert(host.subrange(0, 8)[0] == host[0]);
        }
    }
}

/// The variable of a homeserver does not depend on the scheme of its address.
pub proof fn variable_ignores_scheme(host: Seq<char>)
    requires
        host.len() == 0 || host[0] != 'h',
    ensures
        variable_domain("https://"@ + host) == variable_domain(host),
        variable_domain("http://"@ + host) == variable_domain(host),
        variable_domain(host).len() == uppercase_text(host).len(),
        forall|i: int|
            0 <= i < uppercase_text(host).len() ==> #[trigger] variable_domain(host)[i] == if (
            uppercase_text(host)[i] == '.' || uppercase_text(host)[i] == '-') {
                '_'
            } else {
                uppercase_text(host)[i]
            },
{
    reveal_strlit("http://");
    reveal_strlit("https://");
    let (plain, secure) = ("http://"@, "https://"@);
    assert(plain[0] == 'h' && secure[0] == 'h' && plain[4] == ':' && secure[4] == 's');
    assert(!prefix_at(host, 0, secure)) by {
        if prefix_at(host, 0, secure) {
            assert(host.subrange(0, 8)[0] == host[0]);
        }
    }
    assert(!prefix_at(host, 0, plain)) by {
        if prefix_at(host, 0, plain) {
            assert(host.subrange(0, 7)[0] == host[0]);
        }
    }
    assert((secure + host).subrange(0, 8) =~= secure);
    assert((secure + host).skip(8) =~= host);
    assert((plain + host).subrange(0, 7) =~= plain);
    assert((plain + host).skip(7) =~= host);
    assert(!prefix_at(plain + host, 0, secure)) by {
        if prefix_at(plain + host, 0, secure) {
            assert((plain + host).subrange(0, 8)[4] == (plain + host)[4]);
        }
    }
    reveal_with_fuel(without_prefix, 3);
}

/// The lines that count are those with a character that is no white space, in order.
pub proof fn data_lines_push(lines: Seq<Seq<char>>, line: Seq<char>)
    ensures
        data_lines(Seq::empty()) == Seq::<Seq<char>>::empty(),
        (exists|i: int| 0 <= i < line.len() && 0x20 < #[trigger] (line[i] as u32) < 0x7f)
            ==> data_lines(lines.push(line)) == data_lines(lines).push(line),
        (forall|i: int|
            0 <= i < line.len() ==> (#[trigger] line[i] == ' ' || line[i] == '\t' || line[i]
                == '\n' || line[i] == '\r')) ==> data_lines(lines.push(line)) == data_lines(lines),
{
    let kept = |line: Seq<char>| has_data(line);
    reveal(Seq::filter);
    assert(lines.push(line).drop_last() =~= lines);
    assert(lines.push(line).last() == line);
    assert(Seq::<Seq<char>>::empty().filter(kept) =~= Seq::empty());
    if exists|i: int| 0 <= i < line.len() && 0x20 < #[trigger] (line[i] as u32) < 0x7f {
        let i = choose|i: int| 0 <= i < line.len() && 0x20 < #[trigger] (line[i] as u32) < 0x7f;
        assert(!is_white(line[i] as u32));
        assert(has_data(line));
    }
}

/// A file holds one value per line where its extension is spelled as such, in capitals or
/// not.
pub proof fn lines_by_extension(extension: Seq<char>)
    ensures
        extension == "jsonl"@ ==> names_lines(extension),
        extension == "JSONL"@ ==> names_lines(extension),
        extension == "json"@ ==> !names_lines(extension),
        names_lines(extension) ==> extension.len() == 5 && forall|i: int|
            0 <= i < 5 ==> (#[trigger] extension[i] == "jsonl"@[i] || extension[i] == "JSONL"@[i]),
{
    reveal_strlit("jsonl");
    reveal_strlit("JSONL");
    reveal_strlit("json");
}

} // verus!
