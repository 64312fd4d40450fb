use lib::error::{Error, FseErrorKind};

#[test]
fn error_messages() {
    assert_eq!(Error::BadBitStream.message(), "bad bitstream");
    assert_eq!(Error::BadBlock(7).message(), "bad block");
    assert_eq!(Error::PayloadUnderflow.message(), "bad payload underflow");
    assert_eq!(Error::Fse(FseErrorKind::BadLmdPayload).message(), "FSE");
    assert_eq!(FseErrorKind::BadLmdPayload.message(), "bad lmd payload");
    assert_eq!(FseErrorKind::BadLiteralCount(3).message(), "bad literal count");
}
