//! Command batches for the backing engine.
//!
//! Every logical store operation is submitted to the key/value engine as
//! one batch of commands, all-or-nothing.  The builders here compute the
//! exact batch an operation needs: the ordering entry and the field writes
//! of an insert, the ordering removal and the per-present-field deletions
//! of a remove, and the field writes of an edit.  The key layout is
//! `"{type}-index"` for the ordering structure and `"{type}:{id}"` for a
//! field-bag, with identifiers rendered as unhyphenated hex.

use vstd::prelude::*;
use crate::ident::Id;
use crate::ident::spec_simple_of;

verus! {

/// One engine command.
#[derive(Clone, Debug, PartialEq)]
pub enum Command {
    /// Add a member to a sorted set with a score.
    ZAdd { key: String, score: i64, member: String },
    /// Remove a member from a sorted set.
    ZRem { key: String, member: String },
    /// Write one field of a hash.
    HSet { key: String, field: String, value: String },
    /// Delete one field of a hash.
    HDel { key: String, field: String },
}

/// The mathematical value of a command.
#[verifier::ext_equal]
pub enum CommandModel {
    ZAdd { key: Seq<char>, score: i64, member: Seq<char> },
    ZRem { key: Seq<char>, member: Seq<char> },
    HSet { key: Seq<char>, field: Seq<char>, value: Seq<char> },
    HDel { key: Seq<char>, field: Seq<char> },
}

impl View for Command {
    type V = CommandModel;

    open spec fn view(&self) -> CommandModel {
        match self {
            Command::ZAdd { key, score, member } => CommandModel::ZAdd {
                key: key@,
                score: *score,
                member: member@,
            },
            Command::ZRem { key, member } => CommandModel::ZRem { key: key@, member: member@ },
            Command::HSet { key, field, value } => CommandModel::HSet {
                key: key@,
                field: field@,
                value: value@,
            },
            Command::HDel { key, field } => CommandModel::HDel { key: key@, field: field@ },
        }
    }
}

/// The models of a run of commands, in order.
pub open spec fn cmds_model(v: Seq<Command>) -> Seq<CommandModel> {
    v.map_values(|c: Command| c@)
}

/// The ordering structure's key for a record type.
pub open spec fn spec_index_key(t: Seq<char>) -> Seq<char> {
    t + "-index"@
}

/// The field-bag key for one record instance.
pub open spec fn spec_bag_key(t: Seq<char>, id: Id) -> Seq<char> {
    t + ":"@ + spec_simple_of(id.value)
}

/// The ordering structure's key for a record type.
pub fn index_key(index: &str) -> (r: String)
    ensures
        r@ == spec_index_key(index@),
{
    index.to_owned().concat("-index")
}

/// The field-bag key for one record instance.
pub fn bag_key(index: &str, id: &Id) -> (r: String)
    ensures
        r@ == spec_bag_key(index@, *id),
{
    let rendered: String = id.to_simple();
    index.to_owned().concat(":").concat(rendered.as_str())
}

/// The batch of an insert: one ordering entry at rank count-plus-one, then
/// one field write per flattened field, in field order.
pub open spec fn spec_insert_batch(
    t: Seq<char>,
    id: Id,
    count: int,
    pairs: Seq<(Seq<char>, Seq<char>)>,
) -> Seq<CommandModel> {
    seq![
        CommandModel::ZAdd {
            key: spec_index_key(t),
            score: (count + 1) as i64,
            member: spec_simple_of(id.value),
        },
    ] + pairs.map_values(
        |p: (Seq<char>, Seq<char>)| CommandModel::HSet {
            key: spec_bag_key(t, id),
            field: p.0,
            value: p.1,
        },
    )
}

/// The batch of a remove: the ordering entry goes, then exactly the fields
/// present in the bag, in order.
pub open spec fn spec_remove_batch(t: Seq<char>, id: Id, fields: Seq<Seq<char>>) -> Seq<
    CommandModel,
> {
    seq![CommandModel::ZRem { key: spec_index_key(t), member: spec_simple_of(id.value) }]
        + fields.map_values(
        |f: Seq<char>| CommandModel::HDel { key: spec_bag_key(t, id), field: f },
    )
}

/// The batch of an edit: one field write per supplied change, in order;
/// the ordering entry is untouched.
pub open spec fn spec_edit_batch(t: Seq<char>, id: Id, changes: Seq<(Seq<char>, Seq<char>)>)
    -> Seq<CommandModel> {
    changes.map_values(
        |p: (Seq<char>, Seq<char>)| CommandModel::HSet {
            key: spec_bag_key(t, id),
            field: p.0,
            value: p.1,
        },
    )
}

/// Build the insert batch for a flattened record: the identifier joins the
/// ordering index at rank `count + 1` and every field is written into the
/// instance's bag.
pub fn insert_object_commands(index: &str, id: Id, count: i64, field_map: &Vec<(String, String)>)
    -> (r: Vec<Command>)
    requires
        count < i64::MAX,
    ensures
        cmds_model(r@) == spec_insert_batch(index@, id, count as int, field_map.deep_view()),
{
    let ghost target = spec_insert_batch(index@, id, count as int, field_map.deep_view());
    let mut out: Vec<Command> = Vec::new();
    out.push(
        Command::ZAdd { key: index_key(index), score: count + 1, member: id.to_simple() },
    );
    let key: String = bag_key(index, &id);
    let mut i: usize = 0;
    proof {
        assert(cmds_model(out@) =~~= target.subrange(0, 1));
    }
    while i < field_map.len()
        invariant
            target == spec_insert_batch(index@, id, count as int, field_map.deep_view()),
            target.len() == 1 + field_map@.len(),
            key@ == spec_bag_key(index@, id),
            0 <= i <= field_map@.len(),
            cmds_model(out@) == target.subrange(0, i + 1),
        decreases field_map@.len() - i,
    {
        let entry = &field_map[i];
        let cmd: Command = Command::HSet {
            key: key.clone(),
            field: entry.0.clone(),
            value: entry.1.clone(),
        };
        let ghost cm = cmd@;
        let ghost prev = out@;
        proof {
            assert(field_map.deep_view()[i as int].0 == field_map@[i as int].0@);
            assert(cm == target[i + 1]);
        }
        out.push(cmd);
        proof {
            assert(cmds_model(out@) =~~= cmds_model(prev).push(cm));
            assert(target.subrange(0, i + 2) =~~= target.subrange(0, i + 1).push(target[i + 1]));
        }
        i += 1;
    }
    proof {
        assert(target.subrange(0, target.len() as int) =~= target);
    }
    out
}

/// Build the remove batch: the identifier leaves the ordering index and
/// exactly the present fields are deleted from its bag.
pub fn remove_object_commands(index: &str, id: Id, fields: &Vec<String>) -> (r: Vec<Command>)
    ensures
        cmds_model(r@) == spec_remove_batch(index@, id, fields.deep_view()),
{
    let ghost target = spec_remove_batch(index@, id, fields.deep_view());
    let mut out: Vec<Command> = Vec::new();
    out.push(Command::ZRem { key: index_key(index), member: id.to_simple() });
    let key: String = bag_key(index, &id);
    let mut i: usize = 0;
    proof {
        assert(cmds_model(out@) =~~= target.subrange(0, 1));
    }
    while i < fields.len()
        invariant
            target == spec_remove_batch(index@, id, fields.deep_view()),
            target.len() == 1 + fields@.len(),
            key@ == spec_bag_key(index@, id),
            0 <= i <= fields@.len(),
            cmds_model(out@) == target.subrange(0, i + 1),
        decreases fields@.len() - i,
    {
        let entry = &fields[i];
        let cmd: Command = Command::HDel { key: key.clone(), field: entry.clone() };
        let ghost cm = cmd@;
        let ghost prev = out@;
        proof {
            assert(fields.deep_view()[i as int] == fields@[i as int]@);
            assert(cm == target[i + 1]);
        }
        out.push(cmd);
        proof {
            assert(cmds_model(out@) =~~= cmds_model(prev).push(cm));
            assert(target.subrange(0, i + 2) =~~= target.subrange(0, i + 1).push(target[i + 1]));
        }
        i += 1;
    }
    proof {
        assert(target.subrange(0, target.len() as int) =~= target);
    }
    out
}

/// Build the edit batch: one field write per supplied change; nothing else
/// is touched.
pub fn edit_object_commands(index: &str, id: Id, changes: &Vec<(String, String)>) -> (r: Vec<
    Command,
>)
    ensures
        cmds_model(r@) == spec_edit_batch(index@, id, changes.deep_view()),
{
    let ghost target = spec_edit_batch(index@, id, changes.deep_view());
    let mut out: Vec<Command> = Vec::new();
    let key: String = bag_key(index, &id);
    let mut i: usize = 0;
    while i < changes.len()
        invariant
            target == spec_edit_batch(index@, id, changes.deep_view()),
            target.len() == changes@.len(),
            key@ == spec_bag_key(index@, id),
            0 <= i <= changes@.len(),
            cmds_model(out@) == target.subrange(0, i as int),
        decreases changes@.len() - i,
    {
        let entry = &changes[i];
        let cmd: Command = Command::HSet {
            key: key.clone(),
            field: entry.0.clone(),
            value: entry.1.clone(),
        };
        let ghost cm = cmd@;
        let ghost prev = out@;
        proof {
            assert(changes.deep_view()[i as int].0 == changes@[i as int].0@);
            assert(cm == target[i as int]);
        }
        out.push(cmd);
        proof {
            assert(cmds_model(out@) =~~= cmds_model(prev).push(cm));
            assert(target.subrange(0, i + 1) =~~= target.subrange(0, i as int).push(target[i as int]));
        }
        i += 1;
    }
    proof {
        assert(target.subrange(0, target.len() as int) =~= target);
    }
    out
}

/// The inclusive rank window of a 1-based page number, at the fixed page
/// size of eight rows.
pub fn page_window(amount: isize) -> (r: (isize, isize))
    requires
        isize::MIN <= 8 * (amount as int - 1),
        8 * amount as int - 1 <= isize::MAX,
    ensures
        r.0 == 8 * (amount as int - 1),
        r.1 == 8 * amount as int - 1,
{
    let start: isize = 8 * (amount - 1);
    let stop: isize = start + 7;
    (start, stop)
}

} // verus!
