//! Naming persisted runs and finding one by name.

use crate::clm::error::ClmError;
use crate::clm::text::chars_of;
use vstd::prelude::*;
use vstd::string::StringExecFns;

verus! {

/// `needle` stands in `hay` from position `i` on.
pub open spec fn occurs_at(hay: Seq<char>, needle: Seq<char>, i: int) -> bool {
    0 <= i && i + needle.len() <= hay.len() && hay.subrange(i, i + needle.len()) == needle
}

/// `needle` stands somewhere in `hay`.
pub open spec fn contains_text(hay: Seq<char>, needle: Seq<char>) -> bool {
    exists|i: int| occurs_at(hay, needle, i)
}

/// The file name of a persisted run: the time stamp, a hyphen, the model's
/// name, and the extension `.json`.
pub open spec fn run_file_name_spec(timestamp: Seq<char>, model_id: Seq<char>) -> Seq<char> {
    timestamp + seq!['-'] + model_id + seq!['.', 'j', 's', 'o', 'n']
}

fn matches_at(hay: &Vec<char>, needle: &Vec<char>, i: usize) -> (r: bool)
    requires
        i + needle.len() <= hay.len(),
    ensures
        r == occurs_at(hay@, needle@, i as int),
{
    let mut j: usize = 0;
    while j < needle.len()
        invariant
            j <= needle.len(),
            i + needle.len() <= hay.len(),
            forall|k: int| 0 <= k < j ==> hay@[i + k] == needle@[k],
        decreases needle.len() - j,
    {
        if hay[i + j] != needle[j] {
            proof {
                assert(hay@.subrange(i as int, i + needle.len())[j as int] == hay@[i + j]);
            }
            return false;
        }
        j += 1;
    }
    proof {
        assert(hay@.subrange(i as int, i + needle.len()) =~= needle@);
    }
    true
}

/// Whether `needle` stands somewhere in `hay`.
pub fn text_contains(hay: &str, needle: &str) -> (r: bool)
    ensures
        r == contains_text(hay@, needle@),
{
    let hay_chars = chars_of(hay);
    let needle_chars = chars_of(needle);
    if needle_chars.len() > hay_chars.len() {
        return false;
    }
    let last = hay_chars.len() - needle_chars.len();
    let mut i: usize = 0;
    while i < last
        invariant
            i <= last,
            last == hay_chars.len() - needle_chars.len(),
            needle_chars.len() <= hay_chars.len(),
            hay_chars@ == hay@,
            needle_chars@ == needle@,
            forall|k: int| 0 <= k < i ==> !occurs_at(hay@, needle@, k),
        decreases last - i,
    {
        if matches_at(&hay_chars, &needle_chars, i) {
            return true;
        }
        i += 1;
    }
    matches_at(&hay_chars, &needle_chars, last)
}

/// Picks the persisted run for `model_name` among `file_names`: the last
/// file whose name contains `model_name`. Where no name does, the model is
/// unknown.
pub fn select_model(file_names: &Vec<String>, model_name: &str) -> (r: Result<usize, ClmError>)
    ensures
        match r {
            Ok(i) => {
                &&& i < file_names.len()
                &&& contains_text(file_names@[i as int]@, model_name@)
                &&& forall|j: int|
                    i < j < file_names.len() ==> !contains_text(
                        (#[trigger] file_names@[j])@,
                        model_name@,
                    )
            },
            Err(e) => {
                &&& e == ClmError::UnknownModel
                &&& forall|j: int|
                    0 <= j < file_names.len() ==> !contains_text(
                        (#[trigger] file_names@[j])@,
                        model_name@,
                    )
            },
        },
{
    let mut i: usize = file_names.len();
    while i > 0
        invariant
            i <= file_names.len(),
            forall|j: int|
                i <= j < file_names.len() ==> !contains_text(
                    (#[trigger] file_names@[j])@,
                    model_name@,
                ),
        decreases i,
    {
        i -= 1;
        if text_contains(file_names[i].as_str(), model_name) {
            return Ok(i);
        }
    }
    Err(ClmError::UnknownModel)
}

/// The file name of a persisted run.
pub fn run_file_name(timestamp: &str, model_id: &str) -> (name: String)
    ensures
        name@ == run_file_name_spec(timestamp@, model_id@),
{
    let mut name = String::new();
    name.append(timestamp);
    proof {
        reveal_strlit("-");
        reveal_strlit(".json");
        assert("-"@ =~= seq!['-']);
        assert(".json"@ =~= seq!['.', 'j', 's', 'o', 'n']);
    }
    name.append("-");
    name.append(model_id);
    name.append(".json");
    proof {
        assert(name@ =~= run_file_name_spec(timestamp@, model_id@));
    }
    name
}

} // verus!
