//! The arguments of a service implementation: which of telemetry and tracing
//! it asks for.

use vstd::prelude::*;
use vstd::string::*;
use crate::lexical::same_str;

verus! {

/// One argument: a name and the text given for it.
#[derive(Clone, Debug, Default)]
pub struct NamedValue {
    pub name: String,
    pub value: String,
}

/// What a service implementation asks for.
#[derive(Clone, Copy, Debug, Default, PartialEq, Eq, Structural)]
pub struct Args {
    pub telemetry: bool,
    pub tracing: bool,
}

/// An argument has a name that is not known.
#[derive(Clone, Debug)]
pub struct UnsupportedArgument {
    pub name: String,
}

impl UnsupportedArgument {
    /// The error as a sentence that names the argument.
    pub fn message(&self) -> (text: String)
        ensures
            text@ == "'"@ + self.name@ + "' not supported"@,
    {
        let mut text = String::from_str("'");
        text.append(self.name.as_str());
        text.append("' not supported");
        text
    }
}

/// `name` is the name of an argument that is known.
pub open spec fn is_supported(name: Seq<char>) -> bool {
    name == "telemetry"@ || name == "tracing"@
}

/// One of `fields` has the name `name` and the text `true`.
pub open spec fn switched_on(fields: Seq<NamedValue>, name: Seq<char>) -> bool {
    exists|i: int|
        0 <= i < fields.len() && (#[trigger] fields[i]).name@ == name && fields[i].value@ == "true"@
}

/// Place `i` holds the first argument of `fields` whose name is not known.
pub open spec fn first_unsupported(fields: Seq<NamedValue>, i: int) -> bool {
    &&& 0 <= i < fields.len()
    &&& !is_supported(fields[i].name@)
    &&& forall|j: int| 0 <= j < i ==> is_supported((#[trigger] fields[j]).name@)
}

impl Args {
    /// Reads the arguments: telemetry and tracing are asked for where an
    /// argument of that name has the text `true`. Fails at the first argument
    /// of another name.
    pub fn parse(fields: &Vec<NamedValue>) -> (r: Result<Args, UnsupportedArgument>)
        ensures
            match r {
                Ok(args) => {
                    &&& forall|i: int| 0 <= i < fields@.len() ==> is_supported(
                        (#[trigger] fields@[i]).name@,
                    )
                    &&& args.telemetry == switched_on(fields@, "telemetry"@)
                    &&& args.tracing == switched_on(fields@, "tracing"@)
                },
                Err(e) => exists|i: int| #[trigger]
                    first_unsupported(fields@, i) && e.name@ == fields@[i].name@,
            },
    {
        let mut telemetry = false;
        let mut tracing = false;
        let mut i: usize = 0;
        proof {
            reveal_strlit("telemetry");
            reveal_strlit("tracing");
            assert("telemetry"@.len() == 9);
            assert("tracing"@.len() == 7);
        }
        while i < fields.len()
            invariant
                i <= fields@.len(),
                forall|j: int| 0 <= j < i ==> is_supported((#[trigger] fields@[j]).name@),
                telemetry == switched_on(fields@.take(i as int), "telemetry"@),
                tracing == switched_on(fields@.take(i as int), "tracing"@),
                "telemetry"@ != "tracing"@,
            decreases fields@.len() - i,
        {
            let field = &fields[i];
            let ghost before = fields@.take(i as int);
            let ghost after = fields@.take(i + 1);
            let is_true = same_str(field.value.as_str(), "true");
            if same_str(field.name.as_str(), "telemetry") {
                if is_true {
                    telemetry = true;
                }
            } else if same_str(field.name.as_str(), "tracing") {
                if is_true {
                    tracing = true;
                }
            } else {
                proof {
                    assert(first_unsupported(fields@, i as int));
                }
                return Err(UnsupportedArgument { name: field.name.clone() });
            }
            proof {
                assert(after[i as int] == fields@[i as int]);
                assert forall|name: Seq<char>| #[trigger]
                    switched_on(after, name) == (switched_on(before, name) || (fields@[i as int].name@
                        == name && fields@[i as int].value@ == "true"@)) by {
                    if switched_on(before, name) {
                        let j = choose|j: int|
                            0 <= j < before.len() && (#[trigger] before[j]).name@ == name
                                && before[j].value@ == "true"@;
                        assert(after[j] == before[j]);
                    }
                    if switched_on(after, name) {
                        let j = choose|j: int|
                            0 <= j < after.len() && (#[trigger] after[j]).name@ == name
                                && after[j].value@ == "true"@;
                        if j < i {
                            assert(before[j] == after[j]);
                        }
                    }
                }
            }
            i = i + 1;
        }
        assert(fields@.take(fields@.len() as int) =~= fields@);
        Ok(Args { telemetry, tracing })
    }
}

} // verus!
