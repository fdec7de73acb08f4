//! The topics under which operations are recorded.

use vstd::prelude::*;
use vstd::string::StringExecFns;
use crate::permission::same_text;

verus! {

/// The error `strum` gives for a name that is no variant.
#[verifier::external_type_specification]
#[verifier::external_body]
pub struct ExParseError(strum::ParseError);

/// Builds `strum::ParseError::VariantNotFound`, the error that `strum`'s
/// `EnumString` gives for a name that is no variant; nothing is claimed of it.
#[verifier::external_body]
fn variant_not_found() -> strum::ParseError {
    strum::ParseError::VariantNotFound
}

/// A topic of the operation records.
#[derive(Debug, Clone, Copy, PartialEq, Eq, Structural)]
pub enum RecordTopics {
    /// Template example.
    Example,
    /// Template example of a stable cell.
    ExampleCell,
    /// Template example of a stable vector.
    ExampleVec,
    /// Template example of a stable map.
    ExampleMap,
    /// Template example of a stable log.
    ExampleLog,
    /// Template example of a stable priority queue.
    ExamplePriorityQueue,
    /// Cycles received.
    CyclesCharge,
    /// Upgrades.
    Upgrade,
    /// Scheduled tasks.
    Schedule,
    /// Changes to the records.
    Record,
    /// Changes to permissions.
    Permission,
    /// Pausing and resuming.
    Pause,
    /// Installation.
    Initial,
}

/// The number under which a topic is recorded.
pub open spec fn topic_number(t: RecordTopics) -> u8 {
    match t {
        RecordTopics::Example => 0,
        RecordTopics::ExampleCell => 1,
        RecordTopics::ExampleVec => 2,
        RecordTopics::ExampleMap => 3,
        RecordTopics::ExampleLog => 4,
        RecordTopics::ExamplePriorityQueue => 5,
        RecordTopics::CyclesCharge => 249,
        RecordTopics::Upgrade => 250,
        RecordTopics::Schedule => 251,
        RecordTopics::Record => 252,
        RecordTopics::Permission => 253,
        RecordTopics::Pause => 254,
        RecordTopics::Initial => 255,
    }
}

/// Every topic, in declaration order.
pub open spec fn all_topics() -> Seq<RecordTopics> {
    seq![
        RecordTopics::Example,
        RecordTopics::ExampleCell,
        RecordTopics::ExampleVec,
        RecordTopics::ExampleMap,
        RecordTopics::ExampleLog,
        RecordTopics::ExamplePriorityQueue,
        RecordTopics::CyclesCharge,
        RecordTopics::Upgrade,
        RecordTopics::Schedule,
        RecordTopics::Record,
        RecordTopics::Permission,
        RecordTopics::Pause,
        RecordTopics::Initial,
    ]
}

/// The name of a topic: the name of its variant.
pub open spec fn topic_name(t: RecordTopics) -> Seq<char> {
    match t {
        RecordTopics::Example => "Example"@,
        RecordTopics::ExampleCell => "ExampleCell"@,
        RecordTopics::ExampleVec => "ExampleVec"@,
        RecordTopics::ExampleMap => "ExampleMap"@,
        RecordTopics::ExampleLog => "ExampleLog"@,
        RecordTopics::ExamplePriorityQueue => "ExamplePriorityQueue"@,
        RecordTopics::CyclesCharge => "CyclesCharge"@,
        RecordTopics::Upgrade => "Upgrade"@,
        RecordTopics::Schedule => "Schedule"@,
        RecordTopics::Record => "Record"@,
        RecordTopics::Permission => "Permission"@,
        RecordTopics::Pause => "Pause"@,
        RecordTopics::Initial => "Initial"@,
    }
}

/// The topic whose name is `name`, if any.
pub open spec fn topic_named(name: Seq<char>) -> Option<RecordTopics> {
    if name == "Example"@ {
        Some(RecordTopics::Example)
    } else if name == "ExampleCell"@ {
        Some(RecordTopics::ExampleCell)
    } else if name == "ExampleVec"@ {
        Some(RecordTopics::ExampleVec)
    } else if name == "ExampleMap"@ {
        Some(RecordTopics::ExampleMap)
    } else if name == "ExampleLog"@ {
        Some(RecordTopics::ExampleLog)
    } else if name == "ExamplePriorityQueue"@ {
        Some(RecordTopics::ExamplePriorityQueue)
    } else if name == "CyclesCharge"@ {
        Some(RecordTopics::CyclesCharge)
    } else if name == "Upgrade"@ {
        Some(RecordTopics::Upgrade)
    } else if name == "Schedule"@ {
        Some(RecordTopics::Schedule)
    } else if name == "Record"@ {
        Some(RecordTopics::Record)
    } else if name == "Permission"@ {
        Some(RecordTopics::Permission)
    } else if name == "Pause"@ {
        Some(RecordTopics::Pause)
    } else if name == "Initial"@ {
        Some(RecordTopics::Initial)
    } else {
        None
    }
}

impl RecordTopics {
    /// The number under which the topic is recorded.
    pub fn topic(&self) -> (n: u8)
        ensures
            n == topic_number(*self),
    {
        match self {
            RecordTopics::Example => 0,
            RecordTopics::ExampleCell => 1,
            RecordTopics::ExampleVec => 2,
            RecordTopics::ExampleMap => 3,
            RecordTopics::ExampleLog => 4,
            RecordTopics::ExamplePriorityQueue => 5,
            RecordTopics::CyclesCharge => 249,
            RecordTopics::Upgrade => 250,
            RecordTopics::Schedule => 251,
            RecordTopics::Record => 252,
            RecordTopics::Permission => 253,
            RecordTopics::Pause => 254,
            RecordTopics::Initial => 255,
        }
    }

    /// The name of the topic.
    pub fn name(&self) -> (s: &'static str)
        ensures
            s@ == topic_name(*self),
    {
        match self {
            RecordTopics::Example => "Example",
            RecordTopics::ExampleCell => "ExampleCell",
            RecordTopics::ExampleVec => "ExampleVec",
            RecordTopics::ExampleMap => "ExampleMap",
            RecordTopics::ExampleLog => "ExampleLog",
            RecordTopics::ExamplePriorityQueue => "ExamplePriorityQueue",
            RecordTopics::CyclesCharge => "CyclesCharge",
            RecordTopics::Upgrade => "Upgrade",
            RecordTopics::Schedule => "Schedule",
            RecordTopics::Record => "Record",
            RecordTopics::Permission => "Permission",
            RecordTopics::Pause => "Pause",
            RecordTopics::Initial => "Initial",
        }
    }

    /// The names of every topic, in declaration order.
    pub fn topics() -> (v: Vec<String>)
        ensures
            v@.len() == all_topics().len(),
            forall|i: int| 0 <= i < v@.len() ==> #[trigger] v@[i]@ == topic_name(all_topics()[i]),
    {
        let all = vec![
            RecordTopics::Example,
            RecordTopics::ExampleCell,
            RecordTopics::ExampleVec,
            RecordTopics::ExampleMap,
            RecordTopics::ExampleLog,
            RecordTopics::ExamplePriorityQueue,
            RecordTopics::CyclesCharge,
            RecordTopics::Upgrade,
            RecordTopics::Schedule,
            RecordTopics::Record,
            RecordTopics::Permission,
            RecordTopics::Pause,
            RecordTopics::Initial,
        ];
        assert(all@ =~= all_topics());
        let mut v: Vec<String> = Vec::new();
        let mut i: usize = 0;
        while i < all.len()
            invariant
                all@ == all_topics(),
                i <= all@.len(),
                v@.len() == i,
                forall|j: int| 0 <= j < i ==> #[trigger] v@[j]@ == topic_name(all_topics()[j]),
            decreases all@.len() - i,
        {
            v.push(String::from_str(all[i].name()));
            i = i + 1;
        }
        v
    }

    /// The topic with a given name; names are matched exactly.
    pub fn from(topic: &str) -> (r: Result<Self, strum::ParseError>)
        ensures
            match topic_named(topic@) {
                Some(t) => r == Ok::<RecordTopics, strum::ParseError>(t),
                None => r is Err,
            },
    {
        if same_text(topic, "Example") {
            Ok(RecordTopics::Example)
        } else if same_text(topic, "ExampleCell") {
            Ok(RecordTopics::ExampleCell)
        } else if same_text(topic, "ExampleVec") {
            Ok(RecordTopics::ExampleVec)
        } else if same_text(topic, "ExampleMap") {
            Ok(RecordTopics::ExampleMap)
        } else if same_text(topic, "ExampleLog") {
            Ok(RecordTopics::ExampleLog)
        } else if same_text(topic, "ExamplePriorityQueue") {
            Ok(RecordTopics::ExamplePriorityQueue)
        } else if same_text(topic, "CyclesCharge") {
            Ok(RecordTopics::CyclesCharge)
        } else if same_text(topic, "Upgrade") {
            Ok(RecordTopics::Upgrade)
        } else if same_text(topic, "Schedule") {
            Ok(RecordTopics::Schedule)
        } else if same_text(topic, "Record") {
            Ok(RecordTopics::Record)
        } else if same_text(topic, "Permission") {
            Ok(RecordTopics::Permission)
        } else if same_text(topic, "Pause") {
            Ok(RecordTopics::Pause)
        } else if same_text(topic, "Initial") {
            Ok(RecordTopics::Initial)
        } else {
            Err(variant_not_found())
        }
    }
}

} // verus!

verus! {

/// Topic numbers tell topics apart: no two topics share a number. The
/// template's example topics count up from 0 in declaration order, and the
/// storage's own topics count down from 255 (installation) in reverse
/// declaration order; names and numbers agree with parsing.
pub proof fn lemma_topic_numbers()
    ensures
        forall|a: RecordTopics, b: RecordTopics| #[trigger] topic_number(a) == #[trigger] topic_number(b) ==> a == b,
        all_topics().len() == 13,
        forall|i: int| 0 <= i < 6 ==> topic_number(#[trigger] all_topics()[i]) == i,
        forall|i: int| 6 <= i < 13 ==> topic_number(#[trigger] all_topics()[i]) == 243 + i,
        topic_number(RecordTopics::Initial) == 255,
        topic_number(RecordTopics::Upgrade) == 250,
        forall|t: RecordTopics| topic_named(#[trigger] topic_name(t)) == Some(t),
{
    reveal_strlit("Example");
    reveal_strlit("ExampleCell");
    reveal_strlit("ExampleVec");
    reveal_strlit("ExampleMap");
    reveal_strlit("ExampleLog");
    reveal_strlit("ExamplePriorityQueue");
    reveal_strlit("CyclesCharge");
    reveal_strlit("Upgrade");
    reveal_strlit("Schedule");
    reveal_strlit("Record");
    reveal_strlit("Permission");
    reveal_strlit("Pause");
    reveal_strlit("Initial");
    assert forall|t: RecordTopics| topic_named(#[trigger] topic_name(t)) == Some(t) by {
        match t {
            RecordTopics::Example => {
            },
            RecordTopics::ExampleCell => {
                assert("ExampleCell"@.len() != "Example"@.len());
            },
            RecordTopics::ExampleVec => {
                assert("ExampleVec"@.len() != "Example"@.len());
                assert("ExampleVec"@.len() != "ExampleCell"@.len());
            },
            RecordTopics::ExampleMap => {
                assert("ExampleMap"@.len() != "Example"@.len());
                assert("ExampleMap"@.len() != "ExampleCell"@.len());
                assert("ExampleMap"@[7] != "ExampleVec"@[7]);
            },
            RecordTopics::ExampleLog => {
                assert("ExampleLog"@.len() != "Example"@.len());
                assert("ExampleLog"@.len() != "ExampleCell"@.len());
                assert("ExampleLog"@[7] != "ExampleVec"@[7]);
                assert("ExampleLog"@[7] != "ExampleMap"@[7]);
            },
            RecordTopics::ExamplePriorityQueue => {
                assert("ExamplePriorityQueue"@.len() != "Example"@.len());
                assert("ExamplePriorityQueue"@.len() != "ExampleCell"@.len());
                assert("ExamplePriorityQueue"@.len() != "ExampleVec"@.len());
                assert("ExamplePriorityQueue"@.len() != "ExampleMap"@.len());
                assert("ExamplePriorityQueue"@.len() != "ExampleLog"@.len());
            },
            RecordTopics::CyclesCharge => {
                assert("CyclesCharge"@.len() != "Example"@.len());
                assert("CyclesCharge"@.len() != "ExampleCell"@.len());
                assert("CyclesCharge"@.len() != "ExampleVec"@.len());
                assert("CyclesCharge"@.len() != "ExampleMap"@.len());
                assert("CyclesCharge"@.len() != "ExampleLog"@.len());
                assert("CyclesCharge"@.len() != "ExamplePriorityQueue"@.len());
            },
            RecordTopics::Upgrade => {
                assert("Upgrade"@[0] != "Example"@[0]);
                assert("Upgrade"@.len() != "ExampleCell"@.len());
                assert("Upgrade"@.len() != "ExampleVec"@.len());
                assert("Upgrade"@.len() != "ExampleMap"@.len());
                assert("Upgrade"@.len() != "ExampleLog"@.len());
                assert("Upgrade"@.len() != "ExamplePriorityQueue"@.len());
                assert("Upgrade"@.len() != "CyclesCharge"@.len());
            },
            RecordTopics::Schedule => {
                assert("Schedule"@.len() != "Example"@.len());
                assert("Schedule"@.len() != "ExampleCell"@.len());
                assert("Schedule"@.len() != "ExampleVec"@.len());
                assert("Schedule"@.len() != "ExampleMap"@.len());
                assert("Schedule"@.len() != "ExampleLog"@.len());
                assert("Schedule"@.len() != "ExamplePriorityQueue"@.len());
                assert("Schedule"@.len() != "CyclesCharge"@.len());
                assert("Schedule"@.len() != "Upgrade"@.len());
            },
            RecordTopics::Record => {
                assert("Record"@.len() != "Example"@.len());
                assert("Record"@.len() != "ExampleCell"@.len());
                assert("Record"@.len() != "ExampleVec"@.len());
                assert("Record"@.len() != "ExampleMap"@.len());
                assert("Record"@.len() != "ExampleLog"@.len());
                assert("Record"@.len() != "ExamplePriorityQueue"@.len());
                assert("Record"@.len() != "CyclesCharge"@.len());
                assert("Record"@.len() != "Upgrade"@.len());
                assert("Record"@.len() != "Schedule"@.len());
            },
            RecordTopics::Permission => {
                assert("Permission"@.len() != "Example"@.len());
                assert("Permission"@.len() != "ExampleCell"@.len());
                assert("Permission"@[0] != "ExampleVec"@[0]);
                assert("Permission"@[0] != "ExampleMap"@[0]);
                assert("Permission"@[0] != "ExampleLog"@[0]);
                assert("Permission"@.len() != "ExamplePriorityQueue"@.len());
                assert("Permission"@.len() != "CyclesCharge"@.len());
                assert("Permission"@.len() != "Upgrade"@.len());
                assert("Permission"@.len() != "Schedule"@.len());
                assert("Permission"@.len() != "Record"@.len());
            },
            RecordTopics::Pause => {
                assert("Pause"@.len() != "Example"@.len());
                assert("Pause"@.len() != "ExampleCell"@.len());
                assert("Pause"@.len() != "ExampleVec"@.len());
                assert("Pause"@.len() != "ExampleMap"@.len());
                assert("Pause"@.len() != "ExampleLog"@.len());
                assert("Pause"@.len() != "ExamplePriorityQueue"@.len());
                assert("Pause"@.len() != "CyclesCharge"@.len());
                assert("Pause"@.len() != "Upgrade"@.len());
                assert("Pause"@.len() != "Schedule"@.len());
                assert("Pause"@.len() != "Record"@.len());
                assert("Pause"@.len() != "Permission"@.len());
            },
            RecordTopics::Initial => {
                assert("Initial"@[0] != "Example"@[0]);
                assert("Initial"@.len() != "ExampleCell"@.len());
                assert("Initial"@.len() != "ExampleVec"@.len());
                assert("Initial"@.len() != "ExampleMap"@.len());
                assert("Initial"@.len() != "ExampleLog"@.len());
                assert("Initial"@.len() != "ExamplePriorityQueue"@.len());
                assert("Initial"@.len() != "CyclesCharge"@.len());
                assert("Initial"@[0] != "Upgrade"@[0]);
                assert("Initial"@.len() != "Schedule"@.len());
                assert("Initial"@.len() != "Record"@.len());
                assert("Initial"@.len() != "Permission"@.len());
                assert("Initial"@.len() != "Pause"@.len());
            },
        }
    }
}

} // verus!
