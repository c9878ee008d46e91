//! The configuration of the database.

use vstd::prelude::*;

use crate::assoc::{assoc, lemma_assoc_at, lemma_assoc_insert, lemma_assoc_update, paired};

verus! {

/// The names under which commands are known. A command can be renamed, or
/// taken away.
pub struct RenameTable {
    pub commands: Vec<String>,
    pub targets: Vec<Option<String>>,
}

/// What each of several strings says.
pub open spec fn words(strings: Seq<String>) -> Seq<Seq<char>> {
    Seq::new(strings.len(), |i: int| strings[i]@)
}

/// What a string says, if there is one.
pub open spec fn word_of(string: Option<String>) -> Option<Seq<char>> {
    match string {
        Some(s) => Some(s@),
        None => None,
    }
}

/// What each of several strings says, if there is one.
pub open spec fn words_of(strings: Seq<Option<String>>) -> Seq<Option<Seq<char>>> {
    Seq::new(strings.len(), |i: int| word_of(strings[i]))
}

impl View for RenameTable {
    type V = Map<Seq<char>, Option<Seq<char>>>;

    open spec fn view(&self) -> Map<Seq<char>, Option<Seq<char>>> {
        assoc(words(self.commands@), words_of(self.targets@))
    }
}

impl RenameTable {
    /// There is a target for each command, and no command is there twice.
    pub open spec fn wf(&self) -> bool {
        paired(words(self.commands@), words_of(self.targets@))
    }

    /// The table with no command.
    pub fn new() -> (r: RenameTable)
        ensures
            r.wf(),
            r@ == Map::<Seq<char>, Option<Seq<char>>>::empty(),
    {
        let r = RenameTable { commands: Vec::new(), targets: Vec::new() };
        proof {
            assert(r@ =~= Map::<Seq<char>, Option<Seq<char>>>::empty());
        }
        r
    }

    /// Where a command stands.
    fn find(&self, command: &String) -> (r: Option<usize>)
        requires
            self.wf(),
        ensures
            match r {
                Some(i) => i < self.commands.len() && words(self.commands@)[i as int] == command@,
                None => !words(self.commands@).contains(command@),
            },
    {
        let mut i: usize = 0;
        while i < self.commands.len()
            invariant
                i <= self.commands.len(),
                forall|j: int| 0 <= j < i ==> #[trigger] words(self.commands@)[j] != command@,
            decreases self.commands.len() - i,
        {
            if self.commands[i] == *command {
                return Some(i);
            }
            proof {
                assert(words(self.commands@)[i as int] != command@);
            }
            i += 1;
        }
        None
    }

    /// Sets the target of a command.
    pub fn insert(&mut self, command: String, target: Option<String>)
        requires
            old(self).wf(),
        ensures
            final(self).wf(),
            final(self)@ == old(self)@.insert(command@, word_of(target)),
    {
        let ghost names = words(self.commands@);
        let ghost goals = words_of(self.targets@);
        let ghost name = command@;
        let ghost goal = word_of(target);
        match self.find(&command) {
            Some(i) => {
                self.targets[i] = target;
                proof {
                    lemma_assoc_update(names, goals, i as int, goal);
                    assert(words_of(self.targets@) =~= goals.update(i as int, goal));
                }
            },
            None => {
                self.commands.push(command);
                self.targets.push(target);
                proof {
                    lemma_assoc_insert(names, goals, names.len() as int, name, goal);
                    assert(words(self.commands@) =~= names.insert(names.len() as int, name));
                    assert(words_of(self.targets@) =~= goals.insert(names.len() as int, goal));
                }
            },
        }
    }

    /// The target of a command.
    pub fn get(&self, command: &String) -> (r: Option<&Option<String>>)
        requires
            self.wf(),
        ensures
            match r {
                Some(target) => self@.contains_key(command@) && word_of(*target) == self@[command@],
                None => !self@.contains_key(command@),
            },
    {
        match self.find(command) {
            Some(i) => {
                proof {
                    lemma_assoc_at(words(self.commands@), words_of(self.targets@), i as int);
                }
                Some(&self.targets[i])
            },
            None => None,
        }
    }
}

/// The configuration of a database.
pub struct Config {
    /// How many databases there are.
    pub databases: u8,
    /// Whether memory is given back as keys are taken out.
    pub active_rehashing: bool,
    /// The names under which commands are known.
    pub rename_commands: RenameTable,
}

impl Config {
    /// The inner table is valid.
    pub open spec fn wf(&self) -> bool {
        self.rename_commands.wf()
    }

    /// The configuration that holds if nothing else is said.
    pub fn new() -> (r: Config)
        ensures
            r.wf(),
            r.databases == 16,
            r.active_rehashing,
            r.rename_commands@ == Map::<Seq<char>, Option<Seq<char>>>::empty(),
    {
        Config { databases: 16, active_rehashing: true, rename_commands: RenameTable::new() }
    }

    /// A configuration for trials.
    pub fn mock() -> (r: Config)
        ensures
            r.wf(),
            r.databases == 16,
            r.active_rehashing,
            r.rename_commands@ == Map::<Seq<char>, Option<Seq<char>>>::empty(),
    {
        Config::new()
    }
}

/// What strings say comes in their order, and a string that is not there says
/// nothing.
pub proof fn words_elements(strings: Seq<String>, targets: Seq<Option<String>>, string: String, i: int)
    ensures
        words(strings).len() == strings.len(),
        0 <= i < strings.len() ==> words(strings)[i] == strings[i]@,
        words_of(targets).len() == targets.len(),
        0 <= i < targets.len() ==> words_of(targets)[i] == match targets[i] {
            Some(s) => Some(s@),
            None => None,
        },
        word_of(Some(string)) == Some(string@),
        word_of(None::<String>) is None,
{
}

/// A valid table of names has the target at the place of each command.
pub proof fn renames_read(table: RenameTable, i: int)
    requires
        table.wf(),
        0 <= i < table.commands.len(),
    ensures
        table.commands.len() == table.targets.len(),
        table@.contains_key(table.commands@[i]@),
        table@[table.commands@[i]@] == match table.targets@[i] {
            Some(s) => Some(s@),
            None => None,
        },
{
    lemma_assoc_at(words(table.commands@), words_of(table.targets@), i);
}

} // verus!
