//! Scale families and their names.
use vstd::prelude::*;
use vstd::string::*;

verus! {

/// The family of scale functions that decides how fine a digest is near its tails.
#[derive(Clone, Copy, Debug, PartialEq, Eq, Structural)]
pub enum ScaleFamily {
    Quad,
    K1,
    K2,
    K3,
}

/// The ASCII lower-case equivalent of a character.
pub open spec fn lower(c: char) -> char {
    if 'A' <= c && c <= 'Z' {
        ((c as u32) + 32) as char
    } else {
        c
    }
}

/// The text with every ASCII letter in lower case.
pub open spec fn lowercase(text: Seq<char>) -> Seq<char> {
    text.map_values(|c: char| lower(c))
}

/// `str::to_ascii_lowercase`: the letters `A` to `Z` become `a` to `z`, every other
/// character stays as it is.
#[verifier::external_body]
fn to_ascii_lowercase(text: &str) -> (r: String)
    ensures
        r@ == lowercase(text@),
{
    text.to_ascii_lowercase()
}

/// The family with the given lower-case name.
pub open spec fn family_named(name: Seq<char>) -> Option<ScaleFamily> {
    if name == "quad"@ {
        Some(ScaleFamily::Quad)
    } else if name == "k1"@ {
        Some(ScaleFamily::K1)
    } else if name == "k2"@ {
        Some(ScaleFamily::K2)
    } else if name == "k3"@ {
        Some(ScaleFamily::K3)
    } else {
        None
    }
}

/// The message for a name that no family has.
pub open spec fn invalid_scale_message(name: Seq<char>) -> Seq<char> {
    "invalid scale: "@ + name + " (expected 'quad', 'k1', 'k2', or 'k3')"@
}

/// The family that a name stands for, without regard to the case of ASCII letters.
/// Without a name it is `K2`; for a name that no family has, the error is a message that
/// quotes the name in lower case.
pub fn parse_scale(name: Option<&str>) -> (r: Result<ScaleFamily, String>)
    ensures
        name is None ==> r == Ok::<ScaleFamily, String>(ScaleFamily::K2),
        name matches Some(text) ==> match family_named(lowercase(text@)) {
            Some(family) => r == Ok::<ScaleFamily, String>(family),
            None => r matches Err(message) && message@ == invalid_scale_message(lowercase(text@)),
        },
{
    match name {
        None => Ok(ScaleFamily::K2),
        Some(text) => {
            let lowered: String = to_ascii_lowercase(text);
            if lowered == "quad".to_string() {
                Ok(ScaleFamily::Quad)
            } else if lowered == "k1".to_string() {
                Ok(ScaleFamily::K1)
            } else if lowered == "k2".to_string() {
                Ok(ScaleFamily::K2)
            } else if lowered == "k3".to_string() {
                Ok(ScaleFamily::K3)
            } else {
                let mut message: String = "invalid scale: ".to_string();
                message.append(lowered.as_str());
                message.append(" (expected 'quad', 'k1', 'k2', or 'k3')");
                Err(message)
            }
        },
    }
}

/// The four names and their families; no other name has one.
pub proof fn law_each_family_has_its_name(name: Seq<char>)
    ensures
        family_named(name) == Some(ScaleFamily::Quad) <==> name == seq!['q', 'u', 'a', 'd'],
        family_named(name) == Some(ScaleFamily::K1) <==> name == seq!['k', '1'],
        family_named(name) == Some(ScaleFamily::K2) <==> name == seq!['k', '2'],
        family_named(name) == Some(ScaleFamily::K3) <==> name == seq!['k', '3'],
{
    reveal_strlit("quad");
    reveal_strlit("k1");
    reveal_strlit("k2");
    reveal_strlit("k3");
    assert("quad"@ =~= seq!['q', 'u', 'a', 'd']);
    assert("k1"@ =~= seq!['k', '1']);
    assert("k2"@ =~= seq!['k', '2']);
    assert("k3"@ =~= seq!['k', '3']);
    assert("k1"@[1] == '1' && "k2"@[1] == '2' && "k3"@[1] == '3');
}

/// In lower case every character stays where it is, and only the letters `A` to `Z` change.
pub proof fn law_lower_case(text: Seq<char>, i: int)
    requires
        0 <= i < text.len(),
    ensures
        lowercase(text).len() == text.len(),
        'A' <= text[i] <= 'Z' ==> lowercase(text)[i] as u32 == text[i] as u32 + 32,
        !('A' <= text[i] <= 'Z') ==> lowercase(text)[i] == text[i],
{
}

/// The message for an unknown name quotes all of it, behind 15 characters, and goes on to
/// list the names that there are.
pub proof fn law_messages_quote_the_name(name: Seq<char>)
    ensures
        ({
            let message = invalid_scale_message(name);
            let n = 15 + name.len();
            &&& n <= message.len()
            &&& message.subrange(0, 15) == "invalid scale: "@
            &&& message.subrange(15, n as int) == name
            &&& message.subrange(n as int, message.len() as int)
                == " (expected 'quad', 'k1', 'k2', or 'k3')"@
        }),
{
    let message = invalid_scale_message(name);
    reveal_strlit("invalid scale: ");
    let n = 15 + name.len() as int;
    assert("invalid scale: "@.len() == 15);
    assert(message.subrange(0, 15) =~= "invalid scale: "@);
    assert(message.subrange(15, n) =~= name);
    assert(message.subrange(n, message.len() as int) =~= " (expected 'quad', 'k1', 'k2', or 'k3')"@);
}

} // verus!
