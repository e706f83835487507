use nxs::error::NxsError;

#[test]
fn error_messages() {
    assert_eq!(NxsError::BadMagic.to_string(), "ERR_BAD_MAGIC");
    assert_eq!(NxsError::UnknownSigil('%').to_string(), "ERR_UNKNOWN_SIGIL: '%'");
    assert_eq!(NxsError::BadEscape('q').to_string(), "ERR_BAD_ESCAPE: '\\q'");
    assert_eq!(NxsError::OutOfBounds.to_string(), "ERR_OUT_OF_BOUNDS");
    assert_eq!(NxsError::DictMismatch.to_string(), "ERR_DICT_MISMATCH");
    assert_eq!(NxsError::CircularLink.to_string(), "ERR_CIRCULAR_LINK");
    assert_eq!(NxsError::RecursionLimit.to_string(), "ERR_RECURSION_LIMIT");
    assert_eq!(NxsError::MacroUnresolved("@x".to_string()).to_string(), "ERR_MACRO_UNRESOLVED: @x");
    assert_eq!(NxsError::ListTypeMismatch.to_string(), "ERR_LIST_TYPE_MISMATCH");
    assert_eq!(NxsError::Overflow.to_string(), "ERR_OVERFLOW");
    assert_eq!(NxsError::ParseError("bad".to_string()).to_string(), "ParseError: bad");
    assert_eq!(NxsError::IoError("gone".to_string()).to_string(), "IoError: gone");
}

#[test]
fn errors_compare_by_value() {
    assert_eq!(NxsError::UnknownSigil('a'), NxsError::UnknownSigil('a'));
    assert_ne!(NxsError::UnknownSigil('a'), NxsError::UnknownSigil('b'));
    assert_ne!(NxsError::BadMagic, NxsError::OutOfBounds);
}
