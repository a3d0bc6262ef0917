//! Plain records of the world map.

use crate::number::{decimal_u64, parse_u64, push_signed, signed_text};
use vstd::prelude::*;
use vstd::string::*;

verus! {

/// Where a character is: the solar system, and the station or structure if
/// docked.
#[derive(Clone, Copy, Debug, PartialEq, Eq)]
pub struct Location {
    pub solar_system_id: i32,
    pub station_id: Option<i32>,
    pub structure_id: Option<i32>,
}

/// A link between two stargates: where it starts and where it ends.
#[derive(Clone, Copy, Debug, PartialEq, Eq)]
pub struct Connection {
    pub stargate_id: u64,
    pub destination_id: u64,
}

/// An optional id in words: its digits, or the word for "no value".
pub open spec fn id_text(id: Option<i32>) -> Seq<char> {
    match id {
        Some(value) => signed_text(value as int),
        None => "None"@,
    }
}

/// A location in words.
pub open spec fn location_text(location: Location) -> Seq<char> {
    "Current location: Solar System ID: "@ + signed_text(location.solar_system_id as int)
        + ", Station ID: "@ + id_text(location.station_id) + ", Structure ID: "@ + id_text(
        location.structure_id,
    )
}

fn push_id(out: &mut String, id: Option<i32>)
    ensures
        final(out)@ == old(out)@ + id_text(id),
{
    match id {
        Some(value) => push_signed(out, value),
        None => out.append("None"),
    }
}

impl Location {
    /// The location in words, for display.
    pub fn describe(&self) -> (text: String)
        ensures
            text@ == location_text(*self),
    {
        let mut text = String::from_str("Current location: Solar System ID: ");
        push_signed(&mut text, self.solar_system_id);
        text.append(", Station ID: ");
        push_id(&mut text, self.station_id);
        text.append(", Structure ID: ");
        push_id(&mut text, self.structure_id);
        text
    }

    /// Whether the character is docked, in a station or in a structure.
    pub fn is_docked(&self) -> (docked: bool)
        ensures
            docked == (self.station_id is Some || self.structure_id is Some),
    {
        self.station_id.is_some() || self.structure_id.is_some()
    }
}


/// The group of the map's stations.
pub const STATION_GROUP: u64 = 15;

/// The group of the map's stargates.
pub const STARGATE_GROUP: u64 = 10;

/// A field of the map file that should hold a number holds something else.
#[derive(Clone, Copy, Debug, PartialEq, Eq)]
pub struct BadNumber;

/// What a node of the given group is to the map: a station (`true`), a
/// stargate (`false`), or nothing that the map keeps.
pub fn node_kind(group_id: u64) -> (kind: Option<bool>)
    ensures
        kind == if group_id == STATION_GROUP {
            Some(true)
        } else if group_id == STARGATE_GROUP {
            Some(false)
        } else {
            None::<bool>
        },
{
    if group_id == STATION_GROUP {
        Some(true)
    } else if group_id == STARGATE_GROUP {
        Some(false)
    } else {
        None
    }
}

/// The field is empty or holds the word that the map file writes for
/// "no value".
pub open spec fn is_blank(text: Seq<char>) -> bool {
    text.len() == 0 || text == "None"@
}

/// What an optional number field of the map file gives.
pub open spec fn optional_u64_of(field: Option<Seq<char>>) -> Result<Option<u64>, BadNumber> {
    match field {
        None => Ok(None),
        Some(text) => if is_blank(text) {
            Ok(None)
        } else {
            match decimal_u64(text) {
                Some(value) => Ok(Some(value)),
                None => Err(BadNumber),
            }
        },
    }
}

/// Whether a field of the map file stands for "no value".
pub fn blank_field(text: &str) -> (blank: bool)
    ensures
        blank == is_blank(text@),
{
    proof {
        reveal_strlit("None");
    }
    let len = text.unicode_len();
    if len == 0 {
        return true;
    }
    if len != 4 {
        return false;
    }
    let same = text.get_char(0) == 'N' && text.get_char(1) == 'o' && text.get_char(2) == 'n'
        && text.get_char(3) == 'e';
    proof {
        if same {
            assert(text@ =~= "None"@);
        }
    }
    same
}

/// Reads an optional number field of the map file: a missing, empty or
/// "no value" field is no number; any other text has to be one.
pub fn optional_u64(field: Option<&str>) -> (value: Result<Option<u64>, BadNumber>)
    ensures
        value == optional_u64_of(
            match field {
                Some(text) => Some(text@),
                None => None,
            },
        ),
{
    match field {
        None => Ok(None),
        Some(text) => {
            if blank_field(text) {
                Ok(None)
            } else {
                match parse_u64(text) {
                    Some(number) => Ok(Some(number)),
                    None => Err(BadNumber),
                }
            }
        },
    }
}

} // verus!
