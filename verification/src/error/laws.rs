//! What every report says.

use vstd::prelude::*;

use super::{DeError, DeFailure, Error, ErrorKind, Failure, Reason};
use crate::types::Span;

verus! {

/// A report keeps what it was made with: the reason, the name or the limit in it, and the
/// place.
pub proof fn law_a_report_keeps_its_parts(
    name: String,
    text: String,
    limit: usize,
    kind: ErrorKind,
    span: Option<Span>,
)
    ensures
        ErrorKind::UnexpectedEof@ == Reason::UnexpectedEof,
        ErrorKind::UndefinedAlias(name)@ == Reason::UndefinedAlias(name@),
        (ErrorKind::AliasExpansionLimitExceeded { limit })@
            == (Reason::AliasExpansionLimitExceeded { limit }),
        (ErrorKind::AliasMaterializationLimitExceeded { limit })@
            == (Reason::AliasMaterializationLimitExceeded { limit }),
        (ErrorKind::DepthLimitExceeded { limit })@ == (Reason::DepthLimitExceeded { limit }),
        ErrorKind::Syntax(text)@ == Reason::Syntax(text@),
        (Error { kind, span })@.reason == kind@,
        (Error { kind, span })@.span == span,
        DeError::Core(Error { kind, span })@ == DeFailure::Core(
            Failure { reason: kind@, span },
        ),
        DeError::Message(text)@ == DeFailure::Message(text@),
{
}

/// An undefined alias is reported by its name, between back quotes, and an exceeded limit
/// by the limit, in decimal. What the parser says is passed on as it is.
pub proof fn law_words_name_what_was_wrong(name: Seq<char>, limit: usize)
    ensures
        Reason::UndefinedAlias(name).words() == "undefined alias "@ + (seq!['`'] + name + seq![
            '`',
        ]),
        (Reason::AliasExpansionLimitExceeded { limit }).words() == "alias expansion"@
            + " limit of "@ + crate::schema::writing::written(limit as int, 10, false)
            + " exceeded"@,
        (Reason::AliasMaterializationLimitExceeded { limit }).words() == "alias materialization"@
            + " limit of "@ + crate::schema::writing::written(limit as int, 10, false)
            + " exceeded"@,
        (Reason::DepthLimitExceeded { limit }).words() == "nesting depth"@ + " limit of "@
            + crate::schema::writing::written(limit as int, 10, false) + " exceeded"@,
        Reason::Syntax(name).words() == name,
        Reason::UnexpectedEof.words() == "unexpected end of input"@,
{
    reveal_strlit("`");
    reveal_strlit("undefined alias ");
    reveal_strlit("undefined alias `");
    reveal_strlit("alias expansion");
    reveal_strlit("alias materialization");
    reveal_strlit("nesting depth");
    reveal_strlit(" limit of ");
    reveal_strlit("alias expansion limit of ");
    reveal_strlit("alias materialization limit of ");
    reveal_strlit("nesting depth limit of ");
    crate::schema::writing::law_decimal_text_is_base_ten(limit as int, false);
    assert(Reason::UndefinedAlias(name).words() =~= "undefined alias "@ + (seq!['`'] + name
        + seq!['`']));
    assert("alias expansion limit of "@ =~= "alias expansion"@ + " limit of "@);
    assert("alias materialization limit of "@ =~= "alias materialization"@ + " limit of "@);
    assert("nesting depth limit of "@ =~= "nesting depth"@ + " limit of "@);
}

} // verus!
