//! A registry of decoders for application message types, keyed by the
//! message type's name.
use vstd::prelude::*;
use crate::named_table::NamedTable;

verus! {

/// Maps message type names to parsers. A parser turns a payload into a
/// decoded message, or into a description of why it could not.
pub struct MessageRegistry<P> {
    parsers: NamedTable<P>,
}

/// The message of the error returned for a type without a parser.
pub open spec fn missing_parser_message(message_type: Seq<char>) -> Seq<char> {
    "No parser registered for message type: "@ + message_type
}

impl<P> MessageRegistry<P> {
    /// The registered parsers, by message type.
    pub closed spec fn parsers(&self) -> Map<Seq<char>, P> {
        self.parsers.map()
    }

    /// Each message type is registered once.
    pub closed spec fn wf(&self) -> bool {
        self.parsers.wf()
    }

    /// Creates an empty registry.
    pub fn new() -> (r: Self)
        ensures
            r.wf(),
            r.parsers() == Map::<Seq<char>, P>::empty(),
    {
        MessageRegistry { parsers: NamedTable::new() }
    }

    /// Registers `parser` for `message_type`, replacing any parser that was
    /// registered for it before.
    pub fn register(&mut self, message_type: &str, parser: P)
        requires
            old(self).wf(),
        ensures
            final(self).wf(),
            final(self).parsers() == old(self).parsers().insert(message_type@, parser),
    {
        self.parsers.insert(message_type, parser);
    }

    /// Decodes `data` with the parser registered for `message_type`; without
    /// one, fails with "No parser registered for message type: " and the
    /// type's name.
    pub fn decode<R>(&self, message_type: &str, data: &[u8]) -> (res: Result<R, String>) where
        P: Fn(&[u8]) -> Result<R, String>,

        requires
            self.wf(),
            self.parsers().contains_key(message_type@) ==> call_requires(
                self.parsers()[message_type@],
                (data,),
            ),
        ensures
            !self.parsers().contains_key(message_type@) ==> (res matches Err(msg) && msg@
                == missing_parser_message(message_type@)),
            self.parsers().contains_key(message_type@) ==> call_ensures(
                self.parsers()[message_type@],
                (data,),
                res,
            ),
    {
        match self.parsers.position(message_type) {
            Some(i) => (self.parsers.value_at(i))(data),
            None => {
                let mut msg = String::from_str("No parser registered for message type: ");
                msg.append(message_type);
                Err(msg)
            },
        }
    }
}

/// Registering a parser for a message type makes decoding that type use
/// exactly that parser, whatever was registered for it before, and leaves
/// every other type's parser, or its absence, as it was.
pub proof fn law_register_then_decode<P>(before: Map<Seq<char>, P>, after: Map<Seq<char>, P>, message_type: Seq<char>, parser: P, other: Seq<char>)
    requires
        after == before.insert(message_type, parser),
        other != message_type,
    ensures
        after.contains_key(message_type),
        after[message_type] == parser,
        after.contains_key(other) == before.contains_key(other),
        before.contains_key(other) ==> after[other] == before[other],
{
}

} // verus!
