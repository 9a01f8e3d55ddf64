use vstd::prelude::*;

verus! {

/// The hotkeys: each is the set of keys, by name, that pressed together give
/// the command.
#[derive(Debug, Clone)]
pub struct Config {
    pub start_hotkey: Vec<String>,
    pub pause_hotkey: Vec<String>,
    pub stop_hotkey: Vec<String>,
}

/// The names of the keys of a hotkey.
pub open spec fn key_names(keys: Seq<String>) -> Seq<Seq<char>> {
    keys.map_values(|k: String| k@)
}

/// `names` joined with `sep` between two neighbours.
pub open spec fn joined(names: Seq<Seq<char>>, sep: Seq<char>) -> Seq<char>
    decreases names.len(),
{
    if names.len() == 0 {
        seq![]
    } else if names.len() == 1 {
        names[0]
    } else {
        joined(names.drop_last(), sep) + sep + names.last()
    }
}

/// A hotkey of the single key `name`.
fn single_key(name: &str) -> (keys: Vec<String>)
    ensures
        keys@.len() == 1,
        keys@[0]@ == name@,
{
    let mut keys: Vec<String> = Vec::new();
    keys.push(name.to_owned());
    keys
}

impl Default for Config {
    /// F5 starts, F6 pauses and F7 stops.
    fn default() -> (c: Self)
        ensures
            c.start_hotkey@.len() == 1 && c.start_hotkey@[0]@ == "F5"@,
            c.pause_hotkey@.len() == 1 && c.pause_hotkey@[0]@ == "F6"@,
            c.stop_hotkey@.len() == 1 && c.stop_hotkey@[0]@ == "F7"@,
    {
        Config {
            start_hotkey: single_key("F5"),
            pause_hotkey: single_key("F6"),
            stop_hotkey: single_key("F7"),
        }
    }
}

/// How a hotkey is shown: the names of its keys joined by " + ".
pub fn hotkey_text(keys: &Vec<String>) -> (text: String)
    ensures
        text@ == joined(key_names(keys@), " + "@),
{
    let ghost names = key_names(keys@);
    let mut text = String::new();
    let mut i: usize = 0;
    while i < keys.len()
        invariant
            names == key_names(keys@),
            i <= keys.len(),
            text@ == joined(names.take(i as int), " + "@),
        decreases keys.len() - i,
    {
        assert(names.take(i + 1).drop_last() =~= names.take(i as int));
        if i != 0 {
            text.append(" + ");
        }
        text.append(keys[i].as_str());
        i = i + 1;
    }
    assert(names.take(keys.len() as int) =~= names);
    text
}

} // verus!
