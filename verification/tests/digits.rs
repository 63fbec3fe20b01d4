use sym_parser::digits::dec_value;
use sym_parser::digits::hex_value;
use sym_parser::state::State;

#[test]
fn decimal_digits() {
    for (i, ch) in (b'0'..=b'9').enumerate() {
        assert_eq!(dec_value(ch), Some(i as u8));
    }
    assert_eq!(dec_value(b'/'), None);
    assert_eq!(dec_value(b':'), None);
    assert_eq!(dec_value(b'a'), None);
    assert_eq!(dec_value(0), None);
    assert_eq!(dec_value(255), None);
}

#[test]
fn hexadecimal_digits() {
    for (i, ch) in (b'0'..=b'9').enumerate() {
        assert_eq!(hex_value(ch), Some(i as u8));
    }
    for (i, ch) in (b'a'..=b'f').enumerate() {
        assert_eq!(hex_value(ch), Some(10 + i as u8));
    }
    assert_eq!(hex_value(b'g'), None);
    assert_eq!(hex_value(b'`'), None);
    assert_eq!(hex_value(b'A'), None);
    assert_eq!(hex_value(b'F'), None);
    assert_eq!(hex_value(b' '), None);
    assert_eq!(hex_value(b'\n'), None);
}

#[test]
fn every_byte_is_decoded_as_the_tables_say() {
    for ch in 0u8..=255 {
        let dec = if ch.is_ascii_digit() { Some(ch - b'0') } else { None };
        let hex = match ch {
            b'0'..=b'9' => Some(ch - b'0'),
            b'a'..=b'f' => Some(ch - b'a' + 10),
            _ => None,
        };
        assert_eq!(dec_value(ch), dec);
        assert_eq!(hex_value(ch), hex);
    }
}

#[test]
fn states_follow_each_other_within_a_record() {
    assert_eq!(State::LineHexAddr.next(), State::LineHexSize);
    assert_eq!(State::LineHexSize.next(), State::LineDecLine);
    assert_eq!(State::LineDecLine.next(), State::LineDecFile);
    assert_eq!(State::LineDecFile.next(), State::LineEnd);
    assert_eq!(State::Func.next(), State::FuncHexAddr);
    assert_eq!(State::FuncHexAddr.next(), State::FuncHexSize);
    assert_eq!(State::FuncHexSize.next(), State::FuncHexParams);
    assert_eq!(State::FuncHexParams.next(), State::FuncStrName);
    assert_eq!(State::FuncStrName.next(), State::FuncEnd);
    assert_eq!(State::File.next(), State::FileDecIndex);
    assert_eq!(State::FileDecIndex.next(), State::FileStrName);
    assert_eq!(State::FileStrName.next(), State::FileEnd);
    assert_eq!(State::Public.next(), State::PublicHexAddr);
    assert_eq!(State::PublicHexAddr.next(), State::PublicHexParams);
    assert_eq!(State::PublicHexParams.next(), State::PublicStrName);
    assert_eq!(State::PublicStrName.next(), State::PublicEnd);
}

#[test]
fn states_follow_each_other_across_records() {
    assert_eq!(State::Start.next(), State::LineHexAddr);
    assert_eq!(State::LineEnd.next(), State::Skip);
    assert_eq!(State::Skip.next(), State::FuncOrFile);
    assert_eq!(State::FuncOrFile.next(), State::Func);
    assert_eq!(State::FuncEnd.next(), State::File);
    assert_eq!(State::FileEnd.next(), State::Public);
}

#[test]
fn last_state_has_no_successor() {
    assert_eq!(State::PublicEnd.next(), State::PublicEnd);
}
