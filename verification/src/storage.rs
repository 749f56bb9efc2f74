//! Where the raw ladder and match JSON files are kept.
use vstd::prelude::*;

verus! {

/// `base` joined with the relative or absolute path `part`, as a path join
/// does: an absolute `part` replaces `base`, and a separator goes between
/// them unless `base` is empty or already ends with one.
pub open spec fn path_join(base: Seq<char>, part: Seq<char>) -> Seq<char> {
    if part.len() > 0 && part[0] == '/' {
        part
    } else if base.len() == 0 {
        part
    } else if base.last() == '/' {
        base + part
    } else {
        base + seq!['/'] + part
    }
}

/// The decimal digits of `n`.
pub open spec fn decimal(n: nat) -> Seq<char>
    decreases n,
{
    if n < 10 {
        seq![digit(n)]
    } else {
        decimal(n / 10) + seq![digit(n % 10)]
    }
}

pub open spec fn digit(d: nat) -> char {
    if d == 0 {
        '0'
    } else if d == 1 {
        '1'
    } else if d == 2 {
        '2'
    } else if d == 3 {
        '3'
    } else if d == 4 {
        '4'
    } else if d == 5 {
        '5'
    } else if d == 6 {
        '6'
    } else if d == 7 {
        '7'
    } else if d == 8 {
        '8'
    } else {
        '9'
    }
}

fn digit_text(d: u128) -> (c: &'static str)
    requires
        d < 10,
    ensures
        c@ == seq![digit(d as nat)],
{
    proof {
        reveal_strlit("0");
        reveal_strlit("1");
        reveal_strlit("2");
        reveal_strlit("3");
        reveal_strlit("4");
        reveal_strlit("5");
        reveal_strlit("6");
        reveal_strlit("7");
        reveal_strlit("8");
        reveal_strlit("9");
    }
    if d == 0 {
        "0"
    } else if d == 1 {
        "1"
    } else if d == 2 {
        "2"
    } else if d == 3 {
        "3"
    } else if d == 4 {
        "4"
    } else if d == 5 {
        "5"
    } else if d == 6 {
        "6"
    } else if d == 7 {
        "7"
    } else if d == 8 {
        "8"
    } else {
        "9"
    }
}

/// The decimal digits of `n`.
pub fn decimal_text(n: u128) -> (text: String)
    ensures
        text@ == decimal(n as nat),
    decreases n,
{
    let mut text = if n < 10 {
        String::new()
    } else {
        decimal_text(n / 10)
    };
    text.append(digit_text(n % 10));
    proof {
        if n < 10 {
            assert(text@ =~= seq![digit(n as nat)]);
        } else {
            assert(text@ =~= decimal((n / 10) as nat) + seq![digit((n % 10) as nat)]);
        }
    }
    text
}

/// Joins `part` to `base` as a path.
pub fn join_path(base: &str, part: &str) -> (path: String)
    ensures
        path@ == path_join(base@, part@),
{
    proof {
        reveal_strlit("/");
    }
    let part_len = part.unicode_len();
    let base_len = base.unicode_len();
    if part_len > 0 && part.get_char(0) == '/' {
        return part.to_owned();
    }
    if base_len == 0 {
        return part.to_owned();
    }
    let mut path = base.to_owned();
    if base.get_char(base_len - 1) != '/' {
        path.append("/");
    }
    path.append(part);
    path
}

/// The directory under which the raw JSON files are kept.
#[derive(Debug, Clone)]
pub struct DataStore {
    root: String,
}

impl DataStore {
    pub closed spec fn root_path(self) -> Seq<char> {
        self.root@
    }

    pub fn new(root: &str) -> (store: Self)
        ensures
            store.root_path() == root@,
    {
        DataStore { root: root.to_owned() }
    }

    pub fn root(&self) -> (root: &str)
        ensures
            root@ == self.root_path(),
    {
        self.root.as_str()
    }

    /// The file of match `match_id` of `region`:
    /// `<root>/raw/matches/<region>/<match_id>.json`.
    pub fn match_path(&self, region: &str, match_id: &str) -> (path: String)
        ensures
            path@ == path_join(
                path_join(path_join(self.root_path(), "raw/matches"@), region@),
                match_id@ + ".json"@,
            ),
    {
        let matches = join_path(self.root.as_str(), "raw/matches");
        let regional = join_path(matches.as_str(), region);
        let mut file = match_id.to_owned();
        file.append(".json");
        join_path(regional.as_str(), file.as_str())
    }

    /// The file of a ladder snapshot of `platform` taken at
    /// `timestamp_millis`: `<root>/raw/ladders/<platform>/<timestamp>.json`.
    pub fn ladder_snapshot_path(&self, platform: &str, timestamp_millis: u128) -> (path: String)
        ensures
            path@ == path_join(
                path_join(path_join(self.root_path(), "raw/ladders"@), platform@),
                decimal(timestamp_millis as nat) + ".json"@,
            ),
    {
        let ladders = join_path(self.root.as_str(), "raw/ladders");
        let per_platform = join_path(ladders.as_str(), platform);
        let mut file = decimal_text(timestamp_millis);
        file.append(".json");
        join_path(per_platform.as_str(), file.as_str())
    }
}

} // verus!
