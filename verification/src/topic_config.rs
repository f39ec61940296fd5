//! The topic-configuration table: an in-memory map from topic name to its
//! configuration.  Loading the table from its JSON file and writing it back
//! (backup first) are the surrounding program's work; everything the table
//! decides — validation, lookup, upsert, delete — lives here.

use crate::text::str_eq;
use vstd::prelude::*;
use vstd::string::StringExecFns;

verus! {

/// How messages on a topic behave.
#[derive(Clone, Copy, Debug, PartialEq, Eq, Structural)]
pub enum TopicType {
    NORMAL,
    DELAY,
    FIFO,
    TRANSACTION,
}

/// The mathematical content of one topic's configuration.
#[verifier::ext_equal]
pub ghost struct TopicConfigModel {
    pub name: Seq<char>,
    pub topic_type: TopicType,
}

/// One topic's configuration: its name and type.
#[derive(Clone, Debug)]
pub struct TopicConfig {
    name: String,
    topic_type: TopicType,
}

impl View for TopicConfig {
    type V = TopicConfigModel;

    closed spec fn view(&self) -> TopicConfigModel {
        TopicConfigModel { name: self.name@, topic_type: self.topic_type }
    }
}

impl TopicConfig {
    pub fn new(name: String, topic_type: TopicType) -> (r: Self)
        ensures
            r@.name == name@,
            r@.topic_type == topic_type,
    {
        TopicConfig { name, topic_type }
    }

    pub fn name(&self) -> (r: &str)
        ensures
            r@ == self@.name,
    {
        self.name.as_str()
    }

    pub fn topic_type(&self) -> (r: &TopicType)
        ensures
            *r == self@.topic_type,
    {
        &self.topic_type
    }
}

/// First-match lookup by topic name.
pub open spec fn spec_topic_lookup(table: Seq<TopicConfigModel>, name: Seq<char>) -> Option<
    TopicConfigModel,
>
    decreases table.len(),
{
    if table.len() == 0 {
        None
    } else if table[0].name == name {
        Some(table[0])
    } else {
        spec_topic_lookup(table.skip(1), name)
    }
}

/// Replace the entry under the same name if present, else append.
pub open spec fn spec_topic_upsert(table: Seq<TopicConfigModel>, cfg: TopicConfigModel) -> Seq<
    TopicConfigModel,
>
    decreases table.len(),
{
    if table.len() == 0 {
        seq![cfg]
    } else if table[0].name == cfg.name {
        seq![cfg] + table.skip(1)
    } else {
        seq![table[0]] + spec_topic_upsert(table.skip(1), cfg)
    }
}

/// The table without the first entry under `name`.
pub open spec fn spec_topic_remove(table: Seq<TopicConfigModel>, name: Seq<char>) -> Seq<
    TopicConfigModel,
>
    decreases table.len(),
{
    if table.len() == 0 {
        table
    } else if table[0].name == name {
        table.skip(1)
    } else {
        seq![table[0]] + spec_topic_remove(table.skip(1), name)
    }
}

/// What the topic store refuses.
#[derive(Debug)]
pub enum TopicConfigError {
    /// An upsert whose topic name is empty.
    EmptyName,
    /// A table whose topic names repeat.
    DuplicateName,
}

impl TopicConfigError {
    /// A short description of the error.
    pub fn message(&self) -> (r: &'static str)
        ensures
            (self is EmptyName ==> r@ == "topic name is empty"@),
            (self is DuplicateName ==> r@ == "topic name repeats"@),
    {
        match self {
            TopicConfigError::EmptyName => "topic name is empty",
            TopicConfigError::DuplicateName => "topic name repeats",
        }
    }
}

/// The mathematical content of the store: its file paths and the table.
#[verifier::ext_equal]
pub ghost struct TopicConfigManagerModel {
    pub path: Seq<char>,
    pub backup_path: Seq<char>,
    pub table: Seq<TopicConfigModel>,
}

/// The in-memory owner of the topic table, remembering where its JSON file
/// and the backup written before each overwrite live.
pub struct TopicConfigManager {
    path: String,
    topic_config_table: Vec<TopicConfig>,
    backup_path: String,
}

impl View for TopicConfigManager {
    type V = TopicConfigManagerModel;

    closed spec fn view(&self) -> TopicConfigManagerModel {
        TopicConfigManagerModel {
            path: self.path@,
            backup_path: self.backup_path@,
            table: self.topic_config_table@.map_values(|c: TopicConfig| c@),
        }
    }
}

impl TopicConfigManager {
    /// Topic names never repeat in the table.
    pub open spec fn wf(self) -> bool {
        forall|i: int, j: int|
            0 <= i < j < self@.table.len() ==> self@.table[i].name != self@.table[j].name
    }

    /// An empty store rooted under `path`: the table file is
    /// `<path>/topic_config.json`, its backup the same with `.bak`.
    pub fn new(path: &str) -> (r: Self)
        ensures
            r@.path == path@ + "/topic_config.json"@,
            r@.backup_path == r@.path + ".bak"@,
            r@.table.len() == 0,
            r.wf(),
    {
        let mut topic_config_path: String = path.to_owned();
        topic_config_path.append("/topic_config.json");
        let mut backup_path: String = topic_config_path.clone();
        backup_path.append(".bak");
        let r = TopicConfigManager {
            topic_config_table: Vec::new(),
            path: topic_config_path,
            backup_path,
        };
        assert(r@.table =~= Seq::<TopicConfigModel>::empty());
        r
    }

    /// The path of the table's JSON file.
    pub fn path(&self) -> (r: &str)
        ensures
            r@ == self@.path,
    {
        self.path.as_str()
    }

    /// The path the current file is copied to before each overwrite.
    pub fn backup_path(&self) -> (r: &str)
        ensures
            r@ == self@.backup_path,
    {
        self.backup_path.as_str()
    }

    /// Replaces the whole table, as when its file has just been read;
    /// entries with repeated names are refused.
    #[verifier::loop_isolation(false)]
    pub fn replace_table(&mut self, entries: Vec<TopicConfig>) -> (r: Result<
        (),
        TopicConfigError,
    >)
        requires
            old(self).wf(),
        ensures
            final(self).wf(),
            final(self)@.path == old(self)@.path,
            final(self)@.backup_path == old(self)@.backup_path,
            match r {
                Ok(()) => final(self)@.table == entries@.map_values(|c: TopicConfig| c@)
                    && (forall|i: int, j: int|
                    0 <= i < j < entries@.len() ==> (#[trigger] entries@[i])@.name != (
                    #[trigger] entries@[j])@.name),
                Err(_) => final(self)@.table == old(self)@.table && (exists|i: int, j: int|
                    0 <= i < j < entries@.len() && (#[trigger] entries@[i])@.name == (
                    #[trigger] entries@[j])@.name),
            },
    {
        let n: usize = entries.len();
        let mut i: usize = 0;
        while i < n
            invariant
                i <= n,
                n == entries@.len(),
                forall|a: int, b: int|
                    0 <= a < b < i ==> (#[trigger] entries@[a])@.name != (
                    #[trigger] entries@[b])@.name,
            decreases n - i,
        {
            let mut j: usize = 0;
            while j < i
                invariant
                    j <= i < n,
                    n == entries@.len(),
                    forall|b: int|
                        0 <= b < j ==> (#[trigger] entries@[b])@.name != entries@[i as int]@.name,
                decreases i - j,
            {
                if str_eq(entries[j].name.as_str(), entries[i].name.as_str()) {
                    return Err(TopicConfigError::DuplicateName);
                }
                j = j + 1;
            }
            i = i + 1;
        }
        self.topic_config_table = entries;
        Ok(())
    }

    /// The configuration stored under `topic_name`, if any.
    pub fn get_topic_config(&self, topic_name: &str) -> (r: Option<&TopicConfig>)
        ensures
            match r {
                Some(c) => spec_topic_lookup(self@.table, topic_name@) == Some(c@),
                None => spec_topic_lookup(self@.table, topic_name@) is None,
            },
    {
        let ghost table = self@.table;
        let n: usize = self.topic_config_table.len();
        assert(table.skip(0) =~= table);
        let mut i: usize = 0;
        while i < n
            invariant
                i <= n,
                n == self.topic_config_table@.len(),
                table == self@.table,
                n == table.len(),
                spec_topic_lookup(table, topic_name@) == spec_topic_lookup(
                    table.skip(i as int),
                    topic_name@,
                ),
            decreases n - i,
        {
            proof {
                assert(table.skip(i as int)[0] == table[i as int]);
                assert(table.skip(i as int).skip(1) =~= table.skip(i + 1));
            }
            if str_eq(self.topic_config_table[i].name.as_str(), topic_name) {
                return Some(&self.topic_config_table[i]);
            }
            i = i + 1;
        }
        assert(table.skip(n as int).len() == 0);
        None
    }

    /// Stores `config` under its name, replacing any previous entry.  An
    /// empty name is refused with a validation error, and the table is
    /// left exactly as it was — nothing is written anywhere.
    #[verifier::loop_isolation(false)]
    pub fn add_or_update_topic(&mut self, config: TopicConfig) -> (r: Result<
        (),
        TopicConfigError,
    >)
        requires
            old(self).wf(),
        ensures
            final(self).wf(),
            final(self)@.path == old(self)@.path,
            final(self)@.backup_path == old(self)@.backup_path,
            match r {
                Ok(()) => config@.name.len() > 0 && final(self)@.table == spec_topic_upsert(
                    old(self)@.table,
                    config@,
                ),
                Err(e) => config@.name.len() == 0 && e is EmptyName && final(self)@ == old(
                    self,
                )@,
            },
    {
        if config.name.as_str().is_empty() {
            return Err(TopicConfigError::EmptyName);
        }
        let ghost table0 = self@.table;
        let n: usize = self.topic_config_table.len();
        let mut i: usize = 0;
        while i < n
            invariant
                i <= n,
                n == self.topic_config_table@.len(),
                *self == *old(self),
                table0 == self@.table,
                n == table0.len(),
                forall|k: int| 0 <= k < i ==> table0[k].name != config@.name,
            decreases n - i,
        {
            if str_eq(self.topic_config_table[i].name.as_str(), config.name.as_str()) {
                self.topic_config_table[i] = config;
                proof {
                    lemma_topic_upsert_found(table0, config@, i as int);
                    assert(final(self)@.table =~= spec_topic_upsert(table0, config@));
                    lemma_topic_upsert_wf(table0, config@);
                }
                return Ok(());
            }
            i = i + 1;
        }
        self.topic_config_table.push(config);
        proof {
            lemma_topic_upsert_missing(table0, config@);
            assert(final(self)@.table =~= table0 + seq![config@]);
            lemma_topic_upsert_wf(table0, config@);
        }
        Ok(())
    }

    /// Removes the entry under `topic_name`, if any; says whether one was
    /// removed, so the caller knows whether the file must be rewritten.
    #[verifier::loop_isolation(false)]
    pub fn delete_topic(&mut self, topic_name: &str) -> (r: bool)
        requires
            old(self).wf(),
        ensures
            final(self).wf(),
            final(self)@.path == old(self)@.path,
            final(self)@.backup_path == old(self)@.backup_path,
            r == (spec_topic_lookup(old(self)@.table, topic_name@) is Some),
            final(self)@.table == spec_topic_remove(old(self)@.table, topic_name@),
            !r ==> final(self)@ == old(self)@,
    {
        let ghost table0 = self@.table;
        let n: usize = self.topic_config_table.len();
        let mut i: usize = 0;
        while i < n
            invariant
                i <= n,
                n == self.topic_config_table@.len(),
                *self == *old(self),
                table0 == self@.table,
                n == table0.len(),
                forall|k: int| 0 <= k < i ==> table0[k].name != topic_name@,
            decreases n - i,
        {
            if str_eq(self.topic_config_table[i].name.as_str(), topic_name) {
                self.topic_config_table.remove(i);
                proof {
                    lemma_topic_remove_found(table0, topic_name@, i as int);
                    lemma_topic_lookup_found(table0, topic_name@, i as int);
                    assert(final(self)@.table =~= table0.remove(i as int));
                    lemma_topic_remove_keeps_wf(table0, i as int);
                }
                return true;
            }
            i = i + 1;
        }
        proof {
            lemma_topic_absent(table0, topic_name@);
        }
        false
    }

    /// A copy of the whole table, for the caller that writes it out.
    pub fn entries(&self) -> (r: Vec<TopicConfig>)
        ensures
            r@.map_values(|c: TopicConfig| c@) == self@.table,
    {
        let n: usize = self.topic_config_table.len();
        let mut out: Vec<TopicConfig> = Vec::new();
        let mut i: usize = 0;
        while i < n
            invariant
                i <= n,
                n == self.topic_config_table@.len(),
                out@.len() == i,
                forall|k: int| 0 <= k < i ==> (#[trigger] out@[k])@ == self@.table[k],
            decreases n - i,
        {
            let c: TopicConfig = TopicConfig {
                name: self.topic_config_table[i].name.clone(),
                topic_type: self.topic_config_table[i].topic_type,
            };
            assert(c@ == self@.table[i as int]);
            out.push(c);
            i = i + 1;
        }
        assert(out@.map_values(|c: TopicConfig| c@) =~= self@.table);
        out
    }
}

/// After an upsert, looking its name up yields the new configuration, and
/// every other name reads as before.
pub proof fn lemma_topic_upsert_lookup(
    table: Seq<TopicConfigModel>,
    cfg: TopicConfigModel,
    probe: Seq<char>,
)
    ensures
        spec_topic_lookup(spec_topic_upsert(table, cfg), probe) == if probe == cfg.name {
            Some(cfg)
        } else {
            spec_topic_lookup(table, probe)
        },
    decreases table.len(),
{
    let u = spec_topic_upsert(table, cfg);
    if table.len() == 0 {
        assert(u == seq![cfg]);
        assert(u.len() == 1 && u[0] == cfg);
        if probe == cfg.name {
            assert(spec_topic_lookup(u, probe) == Some(cfg));
        } else {
            assert(u.skip(1) =~= Seq::<TopicConfigModel>::empty());
            assert(spec_topic_lookup(u.skip(1), probe) is None);
            assert(spec_topic_lookup(u, probe) is None);
            assert(spec_topic_lookup(table, probe) is None);
        }
    } else if table[0].name == cfg.name {
        assert(u == seq![cfg] + table.skip(1));
        assert(u[0] == cfg);
        assert(u.skip(1) =~= table.skip(1));
        if probe == cfg.name {
            assert(spec_topic_lookup(u, probe) == Some(u[0]));
        } else {
            assert(spec_topic_lookup(u, probe) == spec_topic_lookup(table.skip(1), probe));
            assert(spec_topic_lookup(table, probe) == spec_topic_lookup(table.skip(1), probe));
        }
    } else {
        let v = spec_topic_upsert(table.skip(1), cfg);
        assert(u == seq![table[0]] + v);
        assert(u[0] == table[0]);
        assert(u.skip(1) =~= v);
        lemma_topic_upsert_lookup(table.skip(1), cfg, probe);
        if probe == table[0].name {
            assert(probe != cfg.name);
            assert(spec_topic_lookup(u, probe) == Some(u[0]));
            assert(spec_topic_lookup(table, probe) == Some(table[0]));
        } else {
            assert(spec_topic_lookup(u, probe) == spec_topic_lookup(v, probe));
            assert(spec_topic_lookup(table, probe) == spec_topic_lookup(table.skip(1), probe));
        }
    }
}

proof fn lemma_topic_lookup_found(table: Seq<TopicConfigModel>, name: Seq<char>, i: int)
    requires
        0 <= i < table.len(),
        table[i].name == name,
        forall|k: int| 0 <= k < i ==> table[k].name != name,
    ensures
        spec_topic_lookup(table, name) == Some(table[i]),
    decreases i,
{
    if i > 0 {
        assert(table.skip(1)[i - 1] == table[i]);
        lemma_topic_lookup_found(table.skip(1), name, i - 1);
    }
}

proof fn lemma_topic_absent(table: Seq<TopicConfigModel>, name: Seq<char>)
    requires
        forall|k: int| 0 <= k < table.len() ==> table[k].name != name,
    ensures
        spec_topic_lookup(table, name) is None,
        spec_topic_remove(table, name) == table,
    decreases table.len(),
{
    if table.len() > 0 {
        assert(forall|k: int| 0 <= k < table.skip(1).len() ==> table.skip(1)[k].name != name);
        lemma_topic_absent(table.skip(1), name);
        assert(seq![table[0]] + table.skip(1) =~= table);
    }
}

proof fn lemma_topic_upsert_found(table: Seq<TopicConfigModel>, cfg: TopicConfigModel, i: int)
    requires
        0 <= i < table.len(),
        table[i].name == cfg.name,
        forall|k: int| 0 <= k < i ==> table[k].name != cfg.name,
    ensures
        spec_topic_upsert(table, cfg) == table.update(i, cfg),
    decreases i,
{
    if i == 0 {
        assert(seq![cfg] + table.skip(1) =~= table.update(0, cfg));
    } else {
        assert(table.skip(1)[i - 1] == table[i]);
        lemma_topic_upsert_found(table.skip(1), cfg, i - 1);
        assert(seq![table[0]] + table.skip(1).update(i - 1, cfg) =~= table.update(i, cfg));
    }
}

proof fn lemma_topic_upsert_missing(table: Seq<TopicConfigModel>, cfg: TopicConfigModel)
    requires
        forall|k: int| 0 <= k < table.len() ==> table[k].name != cfg.name,
    ensures
        spec_topic_upsert(table, cfg) == table + seq![cfg],
    decreases table.len(),
{
    if table.len() == 0 {
        assert(spec_topic_upsert(table, cfg) =~= table + seq![cfg]);
    } else {
        lemma_topic_upsert_missing(table.skip(1), cfg);
        assert(seq![table[0]] + (table.skip(1) + seq![cfg]) =~= table + seq![cfg]);
    }
}

/// Names after an upsert are the old names or the inserted one.
proof fn lemma_topic_upsert_names(table: Seq<TopicConfigModel>, cfg: TopicConfigModel)
    ensures
        forall|i: int|
            0 <= i < spec_topic_upsert(table, cfg).len() ==> ((#[trigger] spec_topic_upsert(
                table,
                cfg,
            )[i]).name == cfg.name || exists|k: int|
                0 <= k < table.len() && table[k].name == spec_topic_upsert(table, cfg)[i].name),
    decreases table.len(),
{
    let u = spec_topic_upsert(table, cfg);
    if table.len() == 0 {
    } else if table[0].name == cfg.name {
        assert forall|i: int| 0 <= i < u.len() implies ((#[trigger] u[i]).name == cfg.name
            || exists|k: int| 0 <= k < table.len() && table[k].name == u[i].name) by {
            if i > 0 {
                assert(table[i].name == u[i].name);
            }
        }
    } else {
        lemma_topic_upsert_names(table.skip(1), cfg);
        let v = spec_topic_upsert(table.skip(1), cfg);
        assert forall|i: int| 0 <= i < u.len() implies ((#[trigger] u[i]).name == cfg.name
            || exists|k: int| 0 <= k < table.len() && table[k].name == u[i].name) by {
            if i == 0 {
                assert(table[0].name == u[0].name);
            } else {
                assert(u[i] == v[i - 1]);
                if v[i - 1].name != cfg.name {
                    let k = choose|k: int|
                        0 <= k < table.skip(1).len() && table.skip(1)[k].name == v[i - 1].name;
                    assert(table[k + 1].name == u[i].name);
                }
            }
        }
    }
}

/// Upserting preserves name uniqueness.
proof fn lemma_topic_upsert_wf(table: Seq<TopicConfigModel>, cfg: TopicConfigModel)
    requires
        forall|i: int, j: int| 0 <= i < j < table.len() ==> table[i].name != table[j].name,
    ensures
        forall|i: int, j: int|
            0 <= i < j < spec_topic_upsert(table, cfg).len() ==> spec_topic_upsert(
                table,
                cfg,
            )[i].name != spec_topic_upsert(table, cfg)[j].name,
    decreases table.len(),
{
    let u = spec_topic_upsert(table, cfg);
    if table.len() == 0 {
    } else if table[0].name == cfg.name {
        assert forall|i: int, j: int| 0 <= i < j < u.len() implies u[i].name != u[j].name by {
            if i == 0 {
                assert(u[j].name == table[j].name);
                assert(table[0].name != table[j].name);
            } else {
                assert(u[i].name == table[i].name && u[j].name == table[j].name);
            }
        }
    } else {
        assert(forall|i: int, j: int|
            0 <= i < j < table.skip(1).len() ==> table.skip(1)[i].name != table.skip(1)[j].name);
        lemma_topic_upsert_wf(table.skip(1), cfg);
        let v = spec_topic_upsert(table.skip(1), cfg);
        lemma_topic_upsert_names(table.skip(1), cfg);
        assert forall|i: int, j: int| 0 <= i < j < u.len() implies u[i].name != u[j].name by {
            if i == 0 {
                assert(u[j].name == v[j - 1].name);
            } else {
                assert(u[i].name == v[i - 1].name && u[j].name == v[j - 1].name);
            }
        }
    }
}

proof fn lemma_topic_remove_found(table: Seq<TopicConfigModel>, name: Seq<char>, i: int)
    requires
        0 <= i < table.len(),
        table[i].name == name,
        forall|k: int| 0 <= k < i ==> table[k].name != name,
    ensures
        spec_topic_remove(table, name) == table.remove(i),
    decreases i,
{
    if i == 0 {
        assert(table.skip(1) =~= table.remove(0));
    } else {
        assert(table.skip(1)[i - 1] == table[i]);
        lemma_topic_remove_found(table.skip(1), name, i - 1);
        assert(seq![table[0]] + table.skip(1).remove(i - 1) =~= table.remove(i));
    }
}

proof fn lemma_topic_remove_keeps_wf(table: Seq<TopicConfigModel>, i: int)
    requires
        0 <= i < table.len(),
        forall|a: int, b: int| 0 <= a < b < table.len() ==> table[a].name != table[b].name,
    ensures
        forall|a: int, b: int|
            0 <= a < b < table.remove(i).len() ==> table.remove(i)[a].name != table.remove(
                i,
            )[b].name,
{
    let r = table.remove(i);
    assert forall|a: int, b: int| 0 <= a < b < r.len() implies r[a].name != r[b].name by {
        let a0 = if a < i {
            a
        } else {
            a + 1
        };
        let b0 = if b < i {
            b
        } else {
            b + 1
        };
        assert(r[a] == table[a0] && r[b] == table[b0]);
    }
}

} // verus!
