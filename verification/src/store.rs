//! The entry store: named entries binding a model identifier and an option
//! list, parsed from and serialized to a flat one-line-per-entry text format,
//! with upsert and removal over the in-memory list.
use vstd::prelude::*;

use crate::text::{
    clone_strings_from, join_spaces, join_with_spaces, split_tokens, str_eq, strs, tokens_of,
};

verus! {

/// A named entry: the name keys the entry, the model identifies the chat
/// model, and the options are passed through to the inference call.
pub struct Entry {
    pub name: String,
    pub model: String,
    pub options: Vec<String>,
}

/// The mathematical content of an entry: name, model, options.
pub type EntryData = (Seq<char>, Seq<char>, Seq<Seq<char>>);

/// The content of one entry.
pub open spec fn entry_data(e: Entry) -> EntryData {
    (e.name@, e.model@, strs(e.options@))
}

/// The content of a whole store.
pub open spec fn entries_data(es: Seq<Entry>) -> Seq<EntryData> {
    es.map_values(|e: Entry| entry_data(e))
}

/// Why a config line is rejected.
#[derive(Debug, Clone, Copy, PartialEq, Eq, Structural)]
pub enum LineFault {
    /// The line holds a name but no model.
    MissingModel,
    /// The line's name is a reserved command keyword.
    ReservedName,
}

/// An error of the entry store.
#[derive(Debug, Clone, Copy, PartialEq, Eq, Structural)]
pub enum StoreError {
    /// A config line is malformed; `line` is its index, `fault` the reason.
    InvalidConfigLine { line: usize, fault: LineFault },
    /// The entry command got fewer than a name and a model.
    IncompleteEntry,
}

/// The command keywords that an entry must not be named after.
pub open spec fn is_reserved(n: Seq<char>) -> bool {
    n == "help"@ || n == "entry"@ || n == "remove"@ || n == "show"@ || n == "list"@
}

/// Decides whether a name is a reserved command keyword.
pub fn is_reserved_name(s: &str) -> (r: bool)
    ensures
        r == is_reserved(s@),
{
    str_eq(s, "help") || str_eq(s, "entry") || str_eq(s, "remove") || str_eq(s, "show") || str_eq(
        s,
        "list",
    )
}

/// The reason a config line is rejected, if it is: a single token lacks a
/// model, and a first token that is a reserved keyword shadows a command.
/// A blank line carries no fault.
pub open spec fn line_fault(line: Seq<char>) -> Option<LineFault> {
    let toks = tokens_of(line);
    if toks.len() == 1 {
        Some(LineFault::MissingModel)
    } else if toks.len() >= 2 && is_reserved(toks[0]) {
        Some(LineFault::ReservedName)
    } else {
        None
    }
}

/// Whether a config line defines an entry (rather than being blank).
pub open spec fn line_is_entry(line: Seq<char>) -> bool {
    tokens_of(line).len() >= 2 && !is_reserved(tokens_of(line)[0])
}

/// The entry a config line defines: first token the name, second the model,
/// the rest the options.
pub open spec fn line_entry(line: Seq<char>) -> EntryData {
    let toks = tokens_of(line);
    (toks[0], toks[1], toks.skip(2))
}

/// The store described by a sequence of config lines, blank lines skipped.
pub open spec fn config_of(lines: Seq<Seq<char>>) -> Seq<EntryData>
    decreases lines.len(),
{
    if lines.len() == 0 {
        Seq::empty()
    } else if line_is_entry(lines.last()) {
        config_of(lines.drop_last()).push(line_entry(lines.last()))
    } else {
        config_of(lines.drop_last())
    }
}

/// Parses config lines into a store. Blank lines are skipped; a line with a
/// single token or with a reserved first token aborts the load, reporting the
/// first offending line and its fault.
pub fn parse_config(lines: &Vec<String>) -> (r: Result<Vec<Entry>, StoreError>)
    ensures
        match r {
            Ok(es) => {
                &&& entries_data(es@) == config_of(strs(lines@))
                &&& forall|k: int|
                    0 <= k < lines@.len() ==> line_fault(#[trigger] strs(lines@)[k]) is None
            },
            Err(e) => match e {
                StoreError::InvalidConfigLine { line, fault } => {
                    &&& line < lines@.len()
                    &&& line_fault(strs(lines@)[line as int]) == Some(fault)
                    &&& forall|k: int|
                        0 <= k < line ==> line_fault(#[trigger] strs(lines@)[k]) is None
                },
                _ => false,
            },
        },
{
    let mut es: Vec<Entry> = Vec::new();
    let mut i: usize = 0;
    proof {
        assert(entries_data(es@) =~= config_of(strs(lines@).take(0)));
    }
    while i < lines.len()
        invariant
            i <= lines@.len(),
            entries_data(es@) =~= config_of(strs(lines@).take(i as int)),
            forall|k: int| 0 <= k < i ==> line_fault(#[trigger] strs(lines@)[k]) is None,
        decreases lines@.len() - i,
    {
        let toks = split_tokens(lines[i].as_str());
        if toks.len() == 1 {
            return Err(StoreError::InvalidConfigLine { line: i, fault: LineFault::MissingModel });
        }
        if toks.len() >= 2 {
            if is_reserved_name(toks[0].as_str()) {
                return Err(
                    StoreError::InvalidConfigLine { line: i, fault: LineFault::ReservedName },
                );
            }
            let options = clone_strings_from(&toks, 2);
            let e = Entry { name: toks[0].clone(), model: toks[1].clone(), options };
            proof {
                let lv = strs(lines@)[i as int];
                assert(entry_data(e) == line_entry(lv));
                assert(strs(lines@).take(i + 1).drop_last() =~= strs(lines@).take(i as int));
                assert(strs(lines@).take(i + 1).last() == lv);
                assert(entries_data(es@.push(e)) =~= entries_data(es@).push(entry_data(e)));
            }
            es.push(e);
        } else {
            proof {
                assert(strs(lines@).take(i + 1).drop_last() =~= strs(lines@).take(i as int));
            }
        }
        i += 1;
    }
    proof {
        assert(strs(lines@).take(lines@.len() as int) =~= strs(lines@));
    }
    Ok(es)
}

/// How many entries of the store carry the given name.
pub open spec fn count_matches(cfg: Seq<EntryData>, name: Seq<char>) -> nat
    decreases cfg.len(),
{
    if cfg.len() == 0 {
        0
    } else {
        count_matches(cfg.drop_last(), name) + (if cfg.last().0 == name {
            1nat
        } else {
            0nat
        })
    }
}

/// The store after an upsert: every entry whose name matches takes the new
/// model and options; the others stay.
pub open spec fn upsert_data(
    cfg: Seq<EntryData>,
    name: Seq<char>,
    model: Seq<char>,
    options: Seq<Seq<char>>,
) -> Seq<EntryData> {
    cfg.map_values(
        |e: EntryData|
            if e.0 == name {
                (name, model, options)
            } else {
                e
            },
    )
}

/// What an upsert did.
#[derive(Debug, Clone, Copy, PartialEq, Eq, Structural)]
pub enum UpsertOutcome {
    /// No entry carried the name; a new one was appended.
    Added,
    /// `count` entries carried the name and were updated.
    Updated { count: usize },
}

/// Upserts an entry built from `args` (name, model, options...) into the
/// store. With fewer than two arguments the store is left alone and the
/// entry is reported incomplete. If entries with the name exist — duplicates
/// are possible — all of them are updated and their number reported;
/// otherwise the new entry is appended.
pub fn entry(args: &Vec<String>, config: &mut Vec<Entry>) -> (r: Result<UpsertOutcome, StoreError>)
    ensures
        args@.len() < 2 ==> r == Err::<UpsertOutcome, StoreError>(StoreError::IncompleteEntry)
            && entries_data(final(config)@) == entries_data(old(config)@),
        args@.len() >= 2 ==> {
            let name = args@[0]@;
            let model = args@[1]@;
            let options = strs(args@).skip(2);
            let cfg = entries_data(old(config)@);
            if count_matches(cfg, name) > 0 {
                &&& r == Ok::<UpsertOutcome, StoreError>(
                    UpsertOutcome::Updated { count: count_matches(cfg, name) as usize },
                )
                &&& count_matches(cfg, name) <= cfg.len()
                &&& entries_data(final(config)@) == upsert_data(cfg, name, model, options)
            } else {
                &&& r == Ok::<UpsertOutcome, StoreError>(UpsertOutcome::Added)
                &&& entries_data(final(config)@) == cfg.push((name, model, options))
            }
        },
{
    if args.len() < 2 {
        return Err(StoreError::IncompleteEntry);
    }
    let ghost cfg = entries_data(config@);
    let ghost namev = args@[0]@;
    let options = clone_strings_from(args, 2);
    let mut count: usize = 0;
    let mut i: usize = 0;
    proof {
        lemma_count_le(cfg, namev);
        assert(strs(options@).len() == options@.len());
        assert(strs(args@).skip(2).len() == args@.len() - 2);
        assert(entries_data(config@) =~= upsert_data(cfg, namev, args@[1]@, strs(args@).skip(2)).take(
            0,
        ) + cfg.skip(0));
    }
    while i < config.len()
        invariant
            i <= config@.len(),
            config@.len() == cfg.len(),
            options@.len() == args@.len() - 2,
            strs(options@) == strs(args@).skip(2),
            args@.len() >= 2,
            namev == args@[0]@,
            count == count_matches(cfg.take(i as int), namev),
            count <= i,
            entries_data(config@) =~= upsert_data(cfg, namev, args@[1]@, strs(args@).skip(2)).take(
                i as int,
            ) + cfg.skip(i as int),
        decreases config@.len() - i,
    {
        proof {
            assert(entries_data(config@)[i as int] == cfg[i as int]);
            assert(cfg.take(i + 1).drop_last() =~= cfg.take(i as int));
        }
        if str_eq(config[i].name.as_str(), args[0].as_str()) {
            let e = Entry {
                name: args[0].clone(),
                model: args[1].clone(),
                options: clone_strings_from(&options, 0),
            };
            proof {
                let mapped = upsert_data(cfg, namev, args@[1]@, strs(args@).skip(2));
                assert(strs(options@).skip(0) =~= strs(options@));
                assert(strs(e.options@) == strs(args@).skip(2));
                assert(mapped[i as int] == (namev, args@[1]@, strs(args@).skip(2)));
                assert(entry_data(e) == mapped[i as int]);
                let newv = config@.update(i as int, e);
                assert forall|j: int| 0 <= j < newv.len() implies entries_data(newv)[j] == (
                mapped.take(i + 1) + cfg.skip(i + 1))[j] by {
                    assert(entries_data(newv)[j] == entry_data(newv[j]));
                    if j != i {
                        assert(entries_data(config@)[j] == (mapped.take(i as int) + cfg.skip(
                            i as int,
                        ))[j]);
                        assert(entries_data(config@)[j] == entry_data(config@[j]));
                    }
                }
                assert(entries_data(newv) =~= mapped.take(i + 1) + cfg.skip(i + 1));
            }
            config.set(i, e);
            count += 1;
        } else {
            proof {
                assert(entries_data(config@) =~= upsert_data(
                    cfg,
                    namev,
                    args@[1]@,
                    strs(args@).skip(2),
                ).take(i + 1) + cfg.skip(i + 1));
            }
        }
        i += 1;
    }
    proof {
        assert(cfg.take(cfg.len() as int) =~= cfg);
        assert(upsert_data(cfg, namev, args@[1]@, strs(args@).skip(2)).take(cfg.len() as int)
            + cfg.skip(cfg.len() as int) =~= upsert_data(cfg, namev, args@[1]@, strs(args@).skip(2)));
    }
    if count > 0 {
        Ok(UpsertOutcome::Updated { count })
    } else {
        let e = Entry { name: args[0].clone(), model: args[1].clone(), options };
        proof {
            lemma_count_zero_no_match(cfg, namev);
            assert(entries_data(config@) =~= cfg);
            assert(upsert_data(cfg, namev, args@[1]@, strs(args@).skip(2)) =~= cfg);
            assert(entries_data(config@.push(e)) =~= cfg.push(entry_data(e)));
        }
        config.push(e);
        Ok(UpsertOutcome::Added)
    }
}

/// The match count never exceeds the store's size.
proof fn lemma_count_le(cfg: Seq<EntryData>, name: Seq<char>)
    ensures
        count_matches(cfg, name) <= cfg.len(),
    decreases cfg.len(),
{
    if cfg.len() > 0 {
        lemma_count_le(cfg.drop_last(), name);
    }
}

/// With a match count of zero, no entry carries the name, so updating the
/// matches changes nothing.
proof fn lemma_count_zero_no_match(cfg: Seq<EntryData>, name: Seq<char>)
    requires
        count_matches(cfg, name) == 0,
    ensures
        forall|j: int| 0 <= j < cfg.len() ==> (#[trigger] cfg[j]).0 != name,
    decreases cfg.len(),
{
    if cfg.len() > 0 {
        lemma_count_zero_no_match(cfg.drop_last(), name);
        assert forall|j: int| 0 <= j < cfg.len() implies (#[trigger] cfg[j]).0 != name by {
            if j < cfg.len() - 1 {
                assert(cfg.drop_last()[j] == cfg[j]);
            }
        }
    }
}

/// Whether a name stands in a list of names.
pub open spec fn name_in(names: Seq<Seq<char>>, n: Seq<char>) -> bool {
    exists|i: int| 0 <= i < names.len() && #[trigger] names[i] == n
}

/// Decides whether `n` stands in `names`.
fn contains_name(names: &Vec<String>, n: &str) -> (r: bool)
    ensures
        r == name_in(strs(names@), n@),
{
    let mut i: usize = 0;
    while i < names.len()
        invariant
            i <= names@.len(),
            forall|j: int| 0 <= j < i ==> #[trigger] strs(names@)[j] != n@,
        decreases names@.len() - i,
    {
        if str_eq(names[i].as_str(), n) {
            assert(strs(names@)[i as int] == n@);
            return true;
        }
        i += 1;
    }
    false
}

/// The store with every entry whose name stands in `names` removed.
pub open spec fn remove_data(cfg: Seq<EntryData>, names: Seq<Seq<char>>) -> Seq<EntryData>
    decreases cfg.len(),
{
    if cfg.len() == 0 {
        Seq::empty()
    } else if name_in(names, cfg.last().0) {
        remove_data(cfg.drop_last(), names)
    } else {
        remove_data(cfg.drop_last(), names).push(cfg.last())
    }
}

/// Returns the store without the entries named in `args`, together with how
/// many entries were dropped.
pub fn remove(args: &Vec<String>, config: &Vec<Entry>) -> (r: (Vec<Entry>, usize))
    ensures
        entries_data(r.0@) == remove_data(entries_data(config@), strs(args@)),
        r.1 == config@.len() - r.0@.len(),
{
    let mut kept: Vec<Entry> = Vec::new();
    let mut removed: usize = 0;
    let mut i: usize = 0;
    let ghost cfg = entries_data(config@);
    proof {
        assert(entries_data(kept@) =~= remove_data(cfg.take(0), strs(args@)));
    }
    while i < config.len()
        invariant
            i <= config@.len(),
            cfg == entries_data(config@),
            cfg.len() == config@.len(),
            entries_data(kept@) =~= remove_data(cfg.take(i as int), strs(args@)),
            removed == i - kept@.len(),
            kept@.len() <= i,
        decreases config@.len() - i,
    {
        proof {
            assert(cfg.take(i + 1).drop_last() =~= cfg.take(i as int));
            assert(cfg.take(i + 1).last() == cfg[i as int]);
        }
        if contains_name(args, config[i].name.as_str()) {
            removed += 1;
        } else {
            let e = duplicate_entry(&config[i]);
            proof {
                assert(entries_data(kept@.push(e)) =~= entries_data(kept@).push(entry_data(e)));
            }
            kept.push(e);
        }
        i += 1;
    }
    proof {
        assert(cfg.take(cfg.len() as int) =~= cfg);
    }
    (kept, removed)
}

/// Clones one entry, keeping its content.
fn duplicate_entry(e: &Entry) -> (r: Entry)
    ensures
        entry_data(r) == entry_data(*e),
{
    Entry {
        name: e.name.clone(),
        model: e.model.clone(),
        options: clone_strings_from(&e.options, 0),
    }
}

/// Removing names that no entry carries leaves the store as it was — and
/// since `remove` reports the length difference, such a removal reports
/// zero entries removed.
pub proof fn lemma_remove_absent(cfg: Seq<EntryData>, names: Seq<Seq<char>>)
    requires
        forall|j: int| 0 <= j < cfg.len() ==> !name_in(names, (#[trigger] cfg[j]).0),
    ensures
        remove_data(cfg, names) == cfg,
    decreases cfg.len(),
{
    if cfg.len() > 0 {
        assert forall|j: int| 0 <= j < cfg.drop_last().len() implies !name_in(
            names,
            (#[trigger] cfg.drop_last()[j]).0,
        ) by {
            assert(cfg.drop_last()[j] == cfg[j]);
        }
        lemma_remove_absent(cfg.drop_last(), names);
        assert(!name_in(names, cfg[cfg.len() - 1].0));
        assert(remove_data(cfg, names) =~= cfg);
    }
}

/// The config-file line of one entry: name, model and options separated by
/// single spaces; with no options the line still closes with a space after
/// the model.
pub open spec fn entry_line(e: EntryData) -> Seq<char> {
    e.0 + seq![' '] + e.1 + seq![' '] + join_spaces(e.2)
}

/// The config-file text of a store: one line per entry, each closed by a
/// newline.
pub open spec fn config_text(cfg: Seq<EntryData>) -> Seq<char>
    decreases cfg.len(),
{
    if cfg.len() == 0 {
        Seq::empty()
    } else {
        config_text(cfg.drop_last()) + entry_line(cfg.last()) + seq!['\n']
    }
}

/// Renders one entry as its config line, without the closing newline.
pub fn entry_text(e: &Entry) -> (r: String)
    ensures
        r@ == entry_line(entry_data(*e)),
{
    let mut r = String::new();
    proof {
        reveal_strlit(" ");
    }
    r.append(e.name.as_str());
    r.append(" ");
    r.append(e.model.as_str());
    r.append(" ");
    let opts = join_with_spaces(&e.options, 0);
    r.append(opts.as_str());
    proof {
        assert(strs(e.options@).skip(0) =~= strs(e.options@));
        assert(r@ == entry_line(entry_data(*e)));
    }
    r
}

/// Serializes the whole store to its config-file text.
pub fn serialize_config(config: &Vec<Entry>) -> (r: String)
    ensures
        r@ == config_text(entries_data(config@)),
{
    let ghost cfg = entries_data(config@);
    let mut r = String::new();
    let mut i: usize = 0;
    proof {
        reveal_strlit("\n");
        assert(r@ =~= config_text(cfg.take(0)));
    }
    while i < config.len()
        invariant
            i <= config@.len(),
            cfg == entries_data(config@),
            cfg.len() == config@.len(),
            "\n"@ == seq!['\n'],
            r@ =~= config_text(cfg.take(i as int)),
        decreases config@.len() - i,
    {
        let line = entry_text(&config[i]);
        r.append(line.as_str());
        r.append("\n");
        proof {
            assert(cfg.take(i + 1).drop_last() =~= cfg.take(i as int));
            assert(cfg.take(i + 1).last() == cfg[i as int]);
        }
        i += 1;
    }
    proof {
        assert(cfg.take(cfg.len() as int) =~= cfg);
    }
    r
}

} // verus!
