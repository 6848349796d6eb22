use osmxml::elements::{Member, MemberType};
use osmxml::error::{Cause, Context, Error, ErrorKind, Position};
use osmxml::event::{Attribute, Event, Events, Token};
use osmxml::read::{
    attribute, coordinate_from_attr, expect_any_element, expect_element, from_attr,
    integer_from_attr, member_type_from_attr, read_document, read_events, read_member, read_nd,
    read_node, read_relation, read_tag, read_way, skip_element,
};

fn attrs(pairs: &[(&str, &str)]) -> Vec<Attribute> {
    pairs.iter().map(|(name, value)| Attribute::new(name.to_string(), value.to_string())).collect()
}

fn at(row: u64, column: u64) -> Position {
    Position::new(row, column)
}

fn open(name: &str, pairs: &[(&str, &str)], row: u64, column: u64) -> Token {
    Token::new(Event::StartElement { name: name.to_string(), attributes: attrs(pairs) }, at(row, column))
}

fn close(row: u64, column: u64) -> Token {
    Token::new(Event::EndElement, at(row, column))
}

fn end(row: u64, column: u64) -> Token {
    Token::new(Event::EndDocument, at(row, column))
}

fn text(row: u64, column: u64) -> Token {
    Token::new(Event::Other, at(row, column))
}

fn failure(message: &str, row: u64, column: u64) -> Token {
    Token::new(Event::Failure { message: message.to_string() }, at(row, column))
}

fn missing(name: &str, row: u64, column: u64) -> Error {
    Error { position: at(row, column), kind: ErrorKind::MissingAttribute { name: name.to_string() } }
}

fn invalid(name: &str, value: &str, cause: Cause, row: u64, column: u64) -> Error {
    Error {
        position: at(row, column),
        kind: ErrorKind::InvalidAttributeValue {
            name: name.to_string(),
            value: value.to_string(),
            cause,
        },
    }
}

fn unexpected(context: Context, row: u64, column: u64) -> Error {
    Error { position: at(row, column), kind: ErrorKind::UnexpectedEvent { context } }
}

fn malformed(message: &str, row: u64, column: u64) -> Error {
    Error { position: at(row, column), kind: ErrorKind::Malformed { message: message.to_string() } }
}

/// The opening tag and the end-element of an element that holds nothing.
fn leaf(name: &str, pairs: &[(&str, &str)], row: u64, column: u64) -> Vec<Token> {
    vec![open(name, pairs, row, column), close(row, column)]
}

/// One list of tokens out of several.
fn all(parts: Vec<Vec<Token>>) -> Vec<Token> {
    parts.into_iter().flatten().collect()
}

/// A reader that has handed out the first of `tokens`.
fn behind_first(tokens: &[Token]) -> Events<'_> {
    let mut reader = Events::new(tokens);
    reader.next();
    reader
}

//------------ attributes

#[test]
fn attribute_is_found_by_name() {
    let list = attrs(&[("id", "1"), ("lat", "2.5"), ("lon", "3.5")]);
    assert_eq!(attribute(&list, "id"), Some("1"));
    assert_eq!(attribute(&list, "lat"), Some("2.5"));
    assert_eq!(attribute(&list, "lon"), Some("3.5"));
    assert_eq!(attribute(&list, "ref"), None);
    assert_eq!(attribute(&list, "ID"), None);
    assert_eq!(attribute(&[], "id"), None);
}

#[test]
fn last_attribute_of_a_name_counts() {
    let list = attrs(&[("id", "1"), ("lat", "2.5"), ("id", "7")]);
    assert_eq!(attribute(&list, "id"), Some("7"));
}

#[test]
fn required_attribute_is_handed_on() {
    assert_eq!(from_attr(Some("x"), at(1, 2), "k"), Ok("x"));
    assert_eq!(from_attr(Some(""), at(1, 2), "k"), Ok(""));
}

#[test]
fn missing_attribute_is_reported_with_name_and_place() {
    assert_eq!(from_attr(None, at(4, 9), "k"), Err(missing("k", 4, 9)));
    assert_eq!(integer_from_attr(None, at(4, 9), "id"), Err(missing("id", 4, 9)));
    assert_eq!(coordinate_from_attr(None, at(4, 9), "lat").err(), Some(missing("lat", 4, 9)));
    assert_eq!(member_type_from_attr(None, at(4, 9), "type"), Err(missing("type", 4, 9)));
}

#[test]
fn integer_attribute_is_read() {
    assert_eq!(integer_from_attr(Some("17"), at(0, 0), "id"), Ok(17));
    assert_eq!(integer_from_attr(Some("-17"), at(0, 0), "ref"), Ok(-17));
}

#[test]
fn bad_integer_attribute_is_reported_with_its_raw_value() {
    assert_eq!(
        integer_from_attr(Some("1x"), at(2, 3), "id"),
        Err(invalid("id", "1x", Cause::InvalidDigit, 2, 3))
    );
    assert_eq!(
        integer_from_attr(Some(""), at(2, 3), "ref"),
        Err(invalid("ref", "", Cause::Empty, 2, 3))
    );
    assert_eq!(
        integer_from_attr(Some("9223372036854775808"), at(2, 3), "id"),
        Err(invalid("id", "9223372036854775808", Cause::TooLarge, 2, 3))
    );
    assert_eq!(
        integer_from_attr(Some("-9223372036854775809"), at(2, 3), "id"),
        Err(invalid("id", "-9223372036854775809", Cause::TooSmall, 2, 3))
    );
}

#[test]
fn coordinate_attribute_is_read() {
    let lat = coordinate_from_attr(Some("52.1"), at(0, 0), "lat").unwrap();
    assert_eq!(lat.as_str(), "52.1");
}

#[test]
fn bad_coordinate_attribute_is_reported_with_its_raw_value() {
    assert_eq!(
        coordinate_from_attr(Some("abc"), at(5, 6), "lat").err(),
        Some(invalid("lat", "abc", Cause::InvalidDecimal, 5, 6))
    );
    assert_eq!(
        coordinate_from_attr(Some(""), at(5, 6), "lon").err(),
        Some(invalid("lon", "", Cause::Empty, 5, 6))
    );
}

#[test]
fn member_type_attribute_is_read() {
    assert_eq!(member_type_from_attr(Some("way"), at(0, 0), "type"), Ok(MemberType::Way));
    assert_eq!(member_type_from_attr(Some("node"), at(0, 0), "type"), Ok(MemberType::Node));
    assert_eq!(
        member_type_from_attr(Some("relation"), at(0, 0), "type"),
        Ok(MemberType::Relation)
    );
}

#[test]
fn unknown_member_type_is_an_invalid_enum_value() {
    assert_eq!(
        member_type_from_attr(Some("area"), at(8, 1), "type"),
        Err(Error { position: at(8, 1), kind: ErrorKind::InvalidEnumValue { value: "area".to_string() } })
    );
}

//------------ children

#[test]
fn tag_is_read_from_k_and_v() {
    let tokens = [open("tag", &[("k", "name"), ("v", "A")], 3, 4)];
    let reader = behind_first(&tokens);
    assert_eq!(
        read_tag(&attrs(&[("k", "name"), ("v", "A")]), &reader),
        Ok(("name".to_string(), "A".to_string()))
    );
    assert_eq!(
        read_tag(&attrs(&[("v", "A"), ("x", "y"), ("k", "name")]), &reader),
        Ok(("name".to_string(), "A".to_string()))
    );
    assert_eq!(read_tag(&attrs(&[("k", ""), ("v", "")]), &reader), Ok((String::new(), String::new())));
}

#[test]
fn tag_without_k_or_v_is_reported_at_the_place_of_the_reader() {
    let tokens = [open("tag", &[], 3, 4)];
    let reader = behind_first(&tokens);
    assert_eq!(read_tag(&attrs(&[("v", "A")]), &reader), Err(missing("k", 3, 4)));
    assert_eq!(read_tag(&attrs(&[("k", "name")]), &reader), Err(missing("v", 3, 4)));
    assert_eq!(read_tag(&attrs(&[]), &reader), Err(missing("k", 3, 4)));
}

#[test]
fn nd_is_read_from_ref() {
    let tokens = [open("nd", &[], 6, 2)];
    let reader = behind_first(&tokens);
    assert_eq!(read_nd(&attrs(&[("ref", "12")]), &reader), Ok(12));
    assert_eq!(read_nd(&attrs(&[]), &reader), Err(missing("ref", 6, 2)));
    assert_eq!(
        read_nd(&attrs(&[("ref", "twelve")]), &reader),
        Err(invalid("ref", "twelve", Cause::InvalidDigit, 6, 2))
    );
}

#[test]
fn member_is_read_from_type_ref_and_role() {
    let tokens = [open("member", &[], 6, 2)];
    let reader = behind_first(&tokens);
    assert_eq!(
        read_member(&attrs(&[("type", "way"), ("ref", "10"), ("role", "outer")]), &reader),
        Ok(Member::new(MemberType::Way, 10, "outer".to_string()))
    );
    assert_eq!(
        read_member(&attrs(&[("role", ""), ("ref", "-4"), ("type", "node")]), &reader),
        Ok(Member::new(MemberType::Node, -4, String::new()))
    );
}

#[test]
fn member_attributes_are_looked_at_in_the_order_type_ref_role() {
    let tokens = [open("member", &[], 6, 2)];
    let reader = behind_first(&tokens);
    assert_eq!(read_member(&attrs(&[]), &reader), Err(missing("type", 6, 2)));
    assert_eq!(
        read_member(&attrs(&[("type", "area")]), &reader),
        Err(Error { position: at(6, 2), kind: ErrorKind::InvalidEnumValue { value: "area".to_string() } })
    );
    assert_eq!(read_member(&attrs(&[("type", "way")]), &reader), Err(missing("ref", 6, 2)));
    assert_eq!(
        read_member(&attrs(&[("type", "way"), ("ref", "x")]), &reader),
        Err(invalid("ref", "x", Cause::InvalidDigit, 6, 2))
    );
    assert_eq!(
        read_member(&attrs(&[("type", "way"), ("ref", "1")]), &reader),
        Err(missing("role", 6, 2))
    );
}

//------------ helpers

#[test]
fn expect_element_takes_the_named_element() {
    let tokens = [open("osm", &[("version", "0.6")], 1, 0), close(2, 0)];
    let mut reader = Events::new(&tokens);
    let found = expect_element(&mut reader, "osm").unwrap().unwrap();
    assert_eq!(found, &attrs(&[("version", "0.6")])[..]);
    assert_eq!(reader.position(), at(1, 0));
    assert_eq!(reader.peek(), Some(&tokens[1]));
}

#[test]
fn expect_element_refuses_another_name() {
    let tokens = [open("gpx", &[], 1, 0), close(2, 0)];
    let mut reader = Events::new(&tokens);
    assert_eq!(expect_element(&mut reader, "osm"), Err(unexpected(Context::Root, 1, 0)));
    assert_eq!(reader.peek(), Some(&tokens[1]));
}

#[test]
fn expect_element_reports_the_end_of_an_element_as_none() {
    let tokens = [close(2, 0)];
    let mut reader = Events::new(&tokens);
    assert_eq!(expect_element(&mut reader, "osm"), Ok(None));
    assert_eq!(reader.position(), at(2, 0));
}

#[test]
fn expect_element_refuses_other_events() {
    for token in [text(1, 1), end(1, 1), Token::new(Event::StartDocument, at(1, 1)), Token::new(Event::ProcessingInstruction, at(1, 1))] {
        let tokens = [token];
        let mut reader = Events::new(&tokens);
        assert_eq!(expect_element(&mut reader, "osm"), Err(unexpected(Context::Root, 1, 1)));
        assert_eq!(reader.peek(), None);
    }
    let tokens = [failure("broken", 1, 1)];
    let mut reader = Events::new(&tokens);
    assert_eq!(expect_element(&mut reader, "osm"), Err(malformed("broken", 1, 1)));
    let tokens: [Token; 0] = [];
    let mut reader = Events::new(&tokens);
    assert_eq!(expect_element(&mut reader, "osm"), Err(unexpected(Context::Root, 0, 0)));
}

#[test]
fn expect_any_element_takes_whatever_element_opens() {
    let tokens = [open("tag", &[("k", "a")], 1, 0), open("bogus", &[], 2, 0), close(3, 0)];
    let mut reader = Events::new(&tokens);
    let (name, found) = expect_any_element(&mut reader).unwrap().unwrap();
    assert_eq!(name, "tag");
    assert_eq!(found, &attrs(&[("k", "a")])[..]);
    assert_eq!(reader.position(), at(1, 0));
    let (name, found) = expect_any_element(&mut reader).unwrap().unwrap();
    assert_eq!(name, "bogus");
    assert!(found.is_empty());
    assert_eq!(expect_any_element(&mut reader), Ok(None));
    assert_eq!(reader.position(), at(3, 0));
}

#[test]
fn expect_any_element_refuses_other_events() {
    for token in [text(4, 1), end(4, 1), Token::new(Event::StartDocument, at(4, 1)), Token::new(Event::ProcessingInstruction, at(4, 1))] {
        let tokens = [open("node", &[], 1, 0), token];
        let mut reader = behind_first(&tokens);
        assert_eq!(expect_any_element(&mut reader), Err(unexpected(Context::Element, 4, 1)));
        assert_eq!(reader.position(), at(4, 1));
    }
    let tokens = [open("node", &[], 1, 0), failure("broken", 4, 1)];
    let mut reader = behind_first(&tokens);
    assert_eq!(expect_any_element(&mut reader), Err(malformed("broken", 4, 1)));
}

#[test]
fn expect_any_element_refuses_the_end_of_the_tokens_where_it_stands() {
    let tokens = [open("node", &[], 1, 7)];
    let mut reader = behind_first(&tokens);
    assert_eq!(expect_any_element(&mut reader), Err(unexpected(Context::Element, 1, 7)));
}

//------------ passing over

#[test]
fn skip_element_goes_to_the_end_of_the_element() {
    let tokens = [open("tag", &[], 1, 0), close(1, 5), open("nd", &[], 2, 0)];
    let mut reader = behind_first(&tokens);
    assert_eq!(skip_element(&mut reader), Ok(()));
    assert_eq!(reader.position(), at(1, 5));
    assert_eq!(reader.peek(), Some(&tokens[2]));
}

#[test]
fn skip_element_passes_over_all_that_the_element_holds() {
    let tokens = all(vec![
        vec![open("bounds", &[], 1, 0), text(1, 1)],
        leaf("a", &[], 2, 0),
        vec![open("b", &[], 3, 0), open("c", &[], 3, 1), text(3, 2)],
        leaf("tag", &[("k", "x")], 3, 3),
        vec![Token::new(Event::ProcessingInstruction, at(3, 4)), close(3, 5), close(3, 6)],
        vec![text(4, 0), close(5, 0), close(6, 0), text(7, 0)],
    ]);
    let mut reader = behind_first(&tokens);
    assert_eq!(skip_element(&mut reader), Ok(()));
    assert_eq!(reader.position(), at(5, 0));
    assert_eq!(reader.remaining(), 2);
}

#[test]
fn skip_element_fails_where_the_element_does_not_end() {
    let tokens = [open("a", &[], 1, 0), open("b", &[], 2, 0), close(3, 0)];
    let mut reader = behind_first(&tokens);
    assert_eq!(skip_element(&mut reader), Err(unexpected(Context::Element, 3, 0)));
    let tokens = [open("a", &[], 1, 0), text(2, 0), end(3, 0), close(4, 0)];
    let mut reader = behind_first(&tokens);
    assert_eq!(skip_element(&mut reader), Err(unexpected(Context::Element, 3, 0)));
    assert_eq!(reader.remaining(), 1);
    let tokens = [open("a", &[], 1, 0), open("b", &[], 2, 0), failure("cut off", 2, 4), close(4, 0)];
    let mut reader = behind_first(&tokens);
    assert_eq!(skip_element(&mut reader), Err(malformed("cut off", 2, 4)));
    let tokens = [open("a", &[], 1, 6)];
    let mut reader = behind_first(&tokens);
    assert_eq!(skip_element(&mut reader), Err(unexpected(Context::Element, 1, 6)));
}

//------------ node

#[test]
fn node_is_read_with_its_tags() {
    let head = attrs(&[("id", "1"), ("lat", "52.1"), ("lon", "13.4")]);
    let tokens = all(vec![
        vec![open("node", &[], 1, 2)],
        leaf("tag", &[("k", "name"), ("v", "A")], 1, 40),
        leaf("tag", &[("k", "place"), ("v", "city")], 2, 4),
        vec![close(3, 2), open("node", &[], 4, 2)],
    ]);
    let mut reader = behind_first(&tokens);
    let node = read_node(&head, &mut reader).ok().unwrap();
    assert_eq!(node.id(), 1);
    assert_eq!(node.lat().as_str(), "52.1");
    assert_eq!(node.lon().as_str(), "13.4");
    assert_eq!(node.tags().get("name"), Some("A"));
    assert_eq!(node.tags().get("place"), Some("city"));
    assert_eq!(reader.position(), at(3, 2));
    assert_eq!(reader.peek(), Some(&tokens[6]));
}

#[test]
fn node_without_children_is_read() {
    let head = attrs(&[("lon", "-0.5"), ("lat", "1e1"), ("id", "-9"), ("user", "x")]);
    let tokens = [open("node", &[], 1, 2), close(1, 30)];
    let mut reader = behind_first(&tokens);
    let node = read_node(&head, &mut reader).ok().unwrap();
    assert_eq!(node.id(), -9);
    assert_eq!(node.lat().as_str(), "1e1");
    assert_eq!(node.lon().as_str(), "-0.5");
    assert_eq!(reader.peek(), None);
}

#[test]
fn node_without_lat_is_a_missing_attribute() {
    let tokens = [open("node", &[], 7, 2), close(7, 30)];
    let mut reader = behind_first(&tokens);
    let r = read_node(&attrs(&[("id", "1"), ("lon", "13.4")]), &mut reader);
    assert_eq!(r.err(), Some(missing("lat", 7, 2)));
    assert_eq!(reader.peek(), Some(&tokens[1]));
}

#[test]
fn node_attributes_are_looked_at_in_the_order_id_lat_lon() {
    let tokens = [open("node", &[], 7, 2), close(7, 30)];
    let read = |pairs: &[(&str, &str)]| {
        let mut reader = behind_first(&tokens);
        read_node(&attrs(pairs), &mut reader).err()
    };
    assert_eq!(read(&[]), Some(missing("id", 7, 2)));
    assert_eq!(read(&[("id", "x"), ("lat", "y")]), Some(invalid("id", "x", Cause::InvalidDigit, 7, 2)));
    assert_eq!(read(&[("id", "1"), ("lon", "y")]), Some(missing("lat", 7, 2)));
    assert_eq!(read(&[("id", "1"), ("lat", "y")]), Some(invalid("lat", "y", Cause::InvalidDecimal, 7, 2)));
    assert_eq!(read(&[("id", "1"), ("lat", "1")]), Some(missing("lon", 7, 2)));
    assert_eq!(read(&[("id", "1"), ("lat", "1"), ("lon", "")]), Some(invalid("lon", "", Cause::Empty, 7, 2)));
}

#[test]
fn node_with_lat_abc_is_an_invalid_attribute_value() {
    let tokens = [open("node", &[], 7, 2), close(7, 30)];
    let mut reader = behind_first(&tokens);
    let r = read_node(&attrs(&[("id", "1"), ("lat", "abc"), ("lon", "13.4")]), &mut reader);
    assert_eq!(r.err(), Some(invalid("lat", "abc", Cause::InvalidDecimal, 7, 2)));
}

#[test]
fn later_tag_of_a_key_wins_in_a_node() {
    let head = attrs(&[("id", "1"), ("lat", "0"), ("lon", "0")]);
    let tokens = all(vec![
        vec![open("node", &[], 1, 2)],
        leaf("tag", &[("k", "a"), ("v", "1")], 2, 0),
        leaf("tag", &[("k", "b"), ("v", "x")], 3, 0),
        leaf("tag", &[("k", "a"), ("v", "2")], 4, 0),
        vec![close(5, 0)],
    ]);
    let mut reader = behind_first(&tokens);
    let node = read_node(&head, &mut reader).ok().unwrap();
    assert_eq!(node.tags().get("a"), Some("2"));
    assert_eq!(node.tags().get("b"), Some("x"));
    assert_eq!(reader.peek(), None);
}

#[test]
fn unknown_children_of_a_node_are_passed_over() {
    let head = attrs(&[("id", "1"), ("lat", "0"), ("lon", "0")]);
    let tokens = all(vec![
        vec![open("node", &[], 1, 2)],
        leaf("foo", &[("x", "1")], 2, 0),
        leaf("tag", &[("k", "a"), ("v", "1")], 3, 0),
        leaf("bar", &[], 4, 0),
        leaf("nd", &[], 5, 0),
        leaf("member", &[("type", "area")], 6, 0),
        vec![close(7, 0)],
    ]);
    let mut reader = behind_first(&tokens);
    let node = read_node(&head, &mut reader).ok().unwrap();
    assert_eq!(node.id(), 1);
    assert_eq!(node.tags().get("a"), Some("1"));
    assert!(!node.tags().has("foo"));
    assert!(!node.tags().has("bar"));
    assert!(!node.tags().has("x"));
    assert_eq!(reader.peek(), None);
}

#[test]
fn unknown_children_of_a_node_are_passed_over_with_all_they_hold() {
    let head = attrs(&[("id", "1"), ("lat", "0"), ("lon", "0")]);
    let tokens = all(vec![
        vec![open("node", &[], 1, 2), open("history", &[], 2, 0), text(2, 1)],
        leaf("tag", &[("k", "old"), ("v", "gone")], 2, 2),
        vec![open("deep", &[], 2, 3)],
        leaf("tag", &[("k", "older")], 2, 4),
        vec![close(2, 5), close(2, 6)],
        leaf("tag", &[("k", "a"), ("v", "1")], 3, 0),
        vec![close(4, 0)],
    ]);
    let mut reader = behind_first(&tokens);
    let node = read_node(&head, &mut reader).ok().unwrap();
    assert_eq!(node.tags().get("a"), Some("1"));
    assert!(!node.tags().has("old"));
    assert!(!node.tags().has("older"));
    assert_eq!(reader.peek(), None);
}

#[test]
fn what_a_tag_holds_is_passed_over() {
    let head = attrs(&[("id", "1"), ("lat", "0"), ("lon", "0")]);
    let tokens = all(vec![
        vec![open("node", &[], 1, 2), open("tag", &[("k", "a"), ("v", "1")], 2, 0), text(2, 1)],
        leaf("tag", &[("k", "inner"), ("v", "2")], 2, 2),
        vec![close(2, 3), close(3, 0)],
    ]);
    let mut reader = behind_first(&tokens);
    let node = read_node(&head, &mut reader).ok().unwrap();
    assert_eq!(node.tags().get("a"), Some("1"));
    assert!(!node.tags().has("inner"));
    assert_eq!(reader.peek(), None);
}

#[test]
fn bad_tag_in_a_node_is_reported_at_the_tag() {
    let head = attrs(&[("id", "1"), ("lat", "1"), ("lon", "2")]);
    let tokens = all(vec![
        vec![open("node", &[], 1, 2)],
        leaf("tag", &[("k", "name"), ("v", "A")], 2, 0),
        leaf("tag", &[("k", "name")], 3, 5),
        vec![close(4, 0)],
    ]);
    let mut reader = behind_first(&tokens);
    assert_eq!(read_node(&head, &mut reader).err(), Some(missing("v", 3, 5)));
    assert_eq!(reader.remaining(), 2);
}

#[test]
fn text_in_a_node_is_refused() {
    let head = attrs(&[("id", "1"), ("lat", "1"), ("lon", "2")]);
    let tokens = all(vec![
        vec![open("node", &[], 1, 2)],
        leaf("tag", &[("k", "a"), ("v", "b")], 2, 0),
        vec![text(3, 9), close(4, 0)],
    ]);
    let mut reader = behind_first(&tokens);
    assert_eq!(read_node(&head, &mut reader).err(), Some(unexpected(Context::Element, 3, 9)));
    assert_eq!(reader.remaining(), 1);
}

#[test]
fn node_that_does_not_end_is_refused() {
    let head = attrs(&[("id", "1"), ("lat", "1"), ("lon", "2")]);
    let tokens = all(vec![vec![open("node", &[], 1, 2)], leaf("tag", &[("k", "a"), ("v", "b")], 2, 0)]);
    let mut reader = behind_first(&tokens);
    assert_eq!(read_node(&head, &mut reader).err(), Some(unexpected(Context::Element, 2, 0)));
    let tokens = [open("node", &[], 1, 2), open("tag", &[("k", "a"), ("v", "b")], 2, 0)];
    let mut reader = behind_first(&tokens);
    assert_eq!(read_node(&head, &mut reader).err(), Some(unexpected(Context::Element, 2, 0)));
    let tokens = [open("node", &[], 1, 2), end(2, 0)];
    let mut reader = behind_first(&tokens);
    assert_eq!(read_node(&head, &mut reader).err(), Some(unexpected(Context::Element, 2, 0)));
    let tokens = [open("node", &[], 1, 2), failure("cut off", 2, 0)];
    let mut reader = behind_first(&tokens);
    assert_eq!(read_node(&head, &mut reader).err(), Some(malformed("cut off", 2, 0)));
    let tokens = [open("node", &[], 1, 2), open("tag", &[("k", "a"), ("v", "b")], 2, 0), failure("cut off", 2, 9)];
    let mut reader = behind_first(&tokens);
    assert_eq!(read_node(&head, &mut reader).err(), Some(malformed("cut off", 2, 9)));
}

//------------ way

#[test]
fn way_nodes_follow_the_order_of_declaration_with_repeats() {
    let tokens = all(vec![
        vec![open("way", &[], 1, 2)],
        leaf("nd", &[("ref", "3")], 2, 0),
        leaf("nd", &[("ref", "1")], 3, 0),
        leaf("nd", &[("ref", "3")], 4, 0),
        leaf("tag", &[("k", "highway"), ("v", "residential")], 5, 0),
        vec![close(8, 0), text(9, 0)],
    ]);
    let mut reader = behind_first(&tokens);
    let way = read_way(&attrs(&[("id", "10")]), &mut reader).ok().unwrap();
    assert_eq!(way.id(), 10);
    assert_eq!(way.nodes(), &[3, 1, 3]);
    assert_eq!(way.tags().get("highway"), Some("residential"));
    assert_eq!(reader.position(), at(8, 0));
    assert_eq!(reader.peek(), Some(&tokens[10]));
}

#[test]
fn way_takes_nodes_and_tags_in_any_mix() {
    let tokens = all(vec![
        vec![open("way", &[], 1, 2)],
        leaf("nd", &[("ref", "5")], 2, 0),
        leaf("tag", &[("k", "highway"), ("v", "residential")], 3, 0),
        leaf("nd", &[("ref", "3")], 4, 0),
        leaf("nd", &[("ref", "5")], 5, 0),
        leaf("tag", &[("k", "name"), ("v", "A")], 5, 9),
        leaf("nd", &[("ref", "-1")], 6, 0),
        leaf("nd", &[("ref", "5")], 7, 0),
        vec![close(8, 0)],
    ]);
    let mut reader = behind_first(&tokens);
    let way = read_way(&attrs(&[("id", "10")]), &mut reader).ok().unwrap();
    assert_eq!(way.nodes(), &[5, 3, 5, -1, 5]);
    assert_eq!(way.tags().get("highway"), Some("residential"));
    assert_eq!(way.tags().get("name"), Some("A"));
}

#[test]
fn way_is_read_to_its_own_end_and_no_further() {
    let tokens = all(vec![
        vec![open("way", &[], 1, 2)],
        leaf("nd", &[("ref", "1")], 2, 0),
        leaf("tag", &[("k", "a"), ("v", "b")], 3, 0),
        vec![close(4, 0)],
        leaf("nd", &[("ref", "2")], 5, 0),
        vec![close(6, 0)],
    ]);
    let mut reader = behind_first(&tokens);
    let way = read_way(&attrs(&[("id", "10")]), &mut reader).ok().unwrap();
    assert_eq!(way.nodes(), &[1]);
    assert_eq!(reader.position(), at(4, 0));
    assert_eq!(reader.remaining(), 3);
    assert_eq!(reader.peek(), Some(&tokens[6]));
}

#[test]
fn way_without_children_has_no_nodes() {
    let tokens = [open("way", &[], 1, 2), close(1, 9)];
    let mut reader = behind_first(&tokens);
    let way = read_way(&attrs(&[("id", "10")]), &mut reader).ok().unwrap();
    assert_eq!(way.nodes(), &[] as &[i64]);
}

#[test]
fn way_without_id_is_a_missing_attribute() {
    let tokens = [open("way", &[], 1, 2), close(1, 9)];
    let mut reader = behind_first(&tokens);
    assert_eq!(read_way(&attrs(&[("ref", "1")]), &mut reader).err(), Some(missing("id", 1, 2)));
    let mut reader = behind_first(&tokens);
    assert_eq!(
        read_way(&attrs(&[("id", "ten")]), &mut reader).err(),
        Some(invalid("id", "ten", Cause::InvalidDigit, 1, 2))
    );
}

#[test]
fn bad_nd_in_a_way_is_reported_at_the_nd() {
    let tokens = all(vec![
        vec![open("way", &[], 1, 2)],
        leaf("nd", &[("ref", "5")], 2, 0),
        leaf("nd", &[], 3, 3),
        leaf("nd", &[("ref", "x")], 4, 0),
        vec![close(5, 0)],
    ]);
    let mut reader = behind_first(&tokens);
    assert_eq!(read_way(&attrs(&[("id", "10")]), &mut reader).err(), Some(missing("ref", 3, 3)));
    assert_eq!(reader.remaining(), 4);
}

#[test]
fn unknown_children_of_a_way_are_passed_over() {
    let tokens = all(vec![
        vec![open("way", &[], 1, 2)],
        leaf("foo", &[], 2, 0),
        leaf("nd", &[("ref", "1")], 3, 0),
        leaf("member", &[("type", "way"), ("ref", "2"), ("role", "")], 4, 0),
        leaf("nd", &[("ref", "2")], 6, 0),
        leaf("Tag", &[], 7, 0),
        vec![close(8, 0)],
    ]);
    let mut reader = behind_first(&tokens);
    let way = read_way(&attrs(&[("id", "10")]), &mut reader).ok().unwrap();
    assert_eq!(way.nodes(), &[1, 2]);
    assert_eq!(reader.peek(), None);
}

#[test]
fn a_way_reads_the_same_with_and_without_unknown_children() {
    let with = all(vec![
        vec![open("way", &[], 1, 2), open("bounds", &[], 2, 0)],
        leaf("nd", &[("ref", "9")], 2, 1),
        vec![text(2, 2), close(2, 3)],
        leaf("nd", &[("ref", "5")], 3, 0),
        leaf("node", &[], 5, 0),
        leaf("nd", &[("ref", "6")], 6, 0),
        leaf("meta", &[], 7, 0),
        vec![close(8, 0)],
    ]);
    let without = all(vec![
        vec![open("way", &[], 1, 2)],
        leaf("nd", &[("ref", "5")], 3, 0),
        leaf("nd", &[("ref", "6")], 6, 0),
        vec![close(8, 0)],
    ]);
    let mut reader = behind_first(&with);
    let a = read_way(&attrs(&[("id", "10")]), &mut reader).ok().unwrap();
    let mut reader = behind_first(&without);
    let b = read_way(&attrs(&[("id", "10")]), &mut reader).ok().unwrap();
    assert_eq!(a.nodes(), &[5, 6]);
    assert_eq!(a.nodes(), b.nodes());
}

#[test]
fn later_tag_of_a_key_wins_in_a_way() {
    let tokens = all(vec![
        vec![open("way", &[], 1, 2)],
        leaf("tag", &[("k", "name"), ("v", "first")], 2, 0),
        leaf("tag", &[("k", "lanes"), ("v", "2")], 2, 9),
        leaf("tag", &[("k", "name"), ("v", "second")], 3, 0),
        vec![close(4, 0)],
    ]);
    let mut reader = behind_first(&tokens);
    let way = read_way(&attrs(&[("id", "10")]), &mut reader).ok().unwrap();
    assert_eq!(way.tags().get("name"), Some("second"));
    assert_eq!(way.tags().get("lanes"), Some("2"));
}

//------------ relation

#[test]
fn relation_members_follow_the_order_of_declaration() {
    let tokens = all(vec![
        vec![open("relation", &[], 1, 2)],
        leaf("member", &[("type", "way"), ("ref", "10"), ("role", "")], 2, 0),
        leaf("member", &[("type", "node"), ("ref", "1"), ("role", "stop")], 3, 0),
        leaf("member", &[("type", "relation"), ("ref", "10"), ("role", "")], 4, 0),
        vec![close(7, 0)],
    ]);
    let mut reader = behind_first(&tokens);
    let relation = read_relation(&attrs(&[("id", "100")]), &mut reader).ok().unwrap();
    assert_eq!(relation.id(), 100);
    assert_eq!(
        relation.members(),
        &[
            Member::new(MemberType::Way, 10, String::new()),
            Member::new(MemberType::Node, 1, "stop".to_string()),
            Member::new(MemberType::Relation, 10, String::new()),
        ]
    );
    assert_eq!(relation.members()[0].role(), "");
    assert_eq!(reader.peek(), None);
}

#[test]
fn relation_takes_members_and_tags_in_any_mix() {
    let tokens = all(vec![
        vec![open("relation", &[], 1, 2)],
        leaf("member", &[("type", "way"), ("ref", "10"), ("role", "outer")], 2, 0),
        leaf("tag", &[("k", "type"), ("v", "multipolygon")], 4, 0),
        leaf("member", &[("type", "way"), ("ref", "10"), ("role", "outer")], 6, 0),
        vec![close(7, 0)],
    ]);
    let mut reader = behind_first(&tokens);
    let relation = read_relation(&attrs(&[("id", "100")]), &mut reader).ok().unwrap();
    assert_eq!(
        relation.members(),
        &[
            Member::new(MemberType::Way, 10, "outer".to_string()),
            Member::new(MemberType::Way, 10, "outer".to_string()),
        ]
    );
    assert_eq!(relation.tags().get("type"), Some("multipolygon"));
}

#[test]
fn member_of_type_area_is_an_invalid_enum_value() {
    let tokens = all(vec![
        vec![open("relation", &[], 1, 2)],
        leaf("member", &[("type", "way"), ("ref", "10"), ("role", "outer")], 2, 6),
        leaf("member", &[("type", "area"), ("ref", "11"), ("role", "")], 3, 6),
        vec![close(4, 0)],
    ]);
    let mut reader = behind_first(&tokens);
    assert_eq!(
        read_relation(&attrs(&[("id", "100")]), &mut reader).err(),
        Some(Error { position: at(3, 6), kind: ErrorKind::InvalidEnumValue { value: "area".to_string() } })
    );
}

#[test]
fn member_without_role_is_a_missing_attribute() {
    let tokens = all(vec![
        vec![open("relation", &[], 1, 2)],
        leaf("member", &[("type", "way"), ("ref", "10")], 2, 6),
        vec![close(3, 0)],
    ]);
    let mut reader = behind_first(&tokens);
    assert_eq!(
        read_relation(&attrs(&[("id", "100")]), &mut reader).err(),
        Some(missing("role", 2, 6))
    );
}

#[test]
fn relation_without_id_is_a_missing_attribute() {
    let tokens = [open("relation", &[], 1, 2), close(3, 0)];
    let mut reader = behind_first(&tokens);
    assert_eq!(read_relation(&attrs(&[]), &mut reader).err(), Some(missing("id", 1, 2)));
}

#[test]
fn unknown_children_of_a_relation_are_passed_over() {
    let tokens = all(vec![
        vec![open("relation", &[], 1, 2)],
        leaf("nd", &[("ref", "9")], 2, 0),
        leaf("member", &[("type", "node"), ("ref", "1"), ("role", "a")], 3, 0),
        leaf("foo", &[("type", "area")], 4, 0),
        leaf("tag", &[("k", "type"), ("v", "route")], 5, 0),
        vec![close(6, 0)],
    ]);
    let mut reader = behind_first(&tokens);
    let relation = read_relation(&attrs(&[("id", "100")]), &mut reader).ok().unwrap();
    assert_eq!(relation.members(), &[Member::new(MemberType::Node, 1, "a".to_string())]);
    assert_eq!(relation.tags().get("type"), Some("route"));
    assert_eq!(reader.peek(), None);
}

//------------ document

#[test]
fn document_body_is_read_to_the_end_of_the_document() {
    let tokens = all(vec![
        leaf("node", &[("id", "1"), ("lat", "1"), ("lon", "2")], 1, 0),
        vec![open("way", &[("id", "1")], 2, 0)],
        leaf("nd", &[("ref", "1")], 2, 5),
        vec![close(2, 9)],
        leaf("relation", &[("id", "1")], 3, 0),
        vec![end(4, 0), text(5, 0)],
    ]);
    let mut reader = Events::new(&tokens);
    let osm = read_document(&mut reader).ok().unwrap();
    assert!(osm.has_node(1) && osm.has_way(1) && osm.has_relation(1));
    assert_eq!(osm.get_way(1).unwrap().nodes(), &[1]);
    assert_eq!(reader.position(), at(4, 0));
    assert_eq!(reader.remaining(), 1);
}

#[test]
fn document_body_ends_where_the_tokens_run_out() {
    let tokens = leaf("node", &[("id", "1"), ("lat", "1"), ("lon", "2")], 1, 0);
    let mut reader = Events::new(&tokens);
    let osm = read_document(&mut reader).ok().unwrap();
    assert_eq!(osm.nodes().len(), 1);
    let nothing: [Token; 0] = [];
    let mut reader = Events::new(&nothing);
    let osm = read_document(&mut reader).ok().unwrap();
    assert!(osm.nodes().is_empty() && osm.ways().is_empty() && osm.relations().is_empty());
}

#[test]
fn unknown_top_level_element_before_a_node_is_passed_over() {
    let tokens = all(vec![
        leaf("bounds", &[("minlat", "0")], 1, 0),
        leaf("node", &[("id", "1"), ("lat", "1"), ("lon", "2")], 2, 0),
        vec![end(3, 0)],
    ]);
    let mut reader = Events::new(&tokens);
    let osm = read_document(&mut reader).ok().unwrap();
    assert_eq!(osm.nodes().len(), 1);
    assert!(osm.has_node(1));
    assert_eq!(osm.ways().len(), 0);
    assert_eq!(osm.relations().len(), 0);
}

#[test]
fn unknown_top_level_elements_are_passed_over_with_all_they_hold() {
    let tokens = all(vec![
        vec![open("changeset", &[], 1, 0), text(1, 1)],
        leaf("node", &[("id", "7"), ("lat", "north")], 1, 2),
        vec![open("way", &[("id", "8")], 1, 3)],
        leaf("nd", &[], 1, 4),
        vec![close(1, 5), close(1, 6)],
        leaf("node", &[("id", "1"), ("lat", "1"), ("lon", "2")], 2, 0),
        leaf("tag", &[], 3, 0),
        leaf("member", &[], 3, 1),
        leaf("Node", &[], 3, 2),
        leaf("way", &[("id", "4")], 4, 0),
        vec![end(6, 0)],
    ]);
    let mut reader = Events::new(&tokens);
    let osm = read_document(&mut reader).ok().unwrap();
    assert_eq!(osm.nodes().len(), 1);
    assert_eq!(osm.ways().len(), 1);
    assert!(osm.relations().is_empty());
    assert!(osm.has_node(1) && osm.has_way(4));
    assert!(!osm.has_node(7) && !osm.has_way(8));
}

#[test]
fn unknown_top_level_element_that_does_not_end_is_refused() {
    let tokens = [open("bounds", &[], 1, 0), text(1, 5), end(2, 0)];
    let mut reader = Events::new(&tokens);
    assert_eq!(read_document(&mut reader).err(), Some(unexpected(Context::Element, 2, 0)));
}

#[test]
fn end_of_an_element_at_top_level_is_refused() {
    let tokens = all(vec![leaf("bounds", &[], 1, 0), vec![close(1, 8), end(2, 0)]]);
    let mut reader = Events::new(&tokens);
    assert_eq!(read_document(&mut reader).err(), Some(unexpected(Context::Document, 1, 8)));
    assert_eq!(reader.remaining(), 1);
}

#[test]
fn other_events_at_top_level_are_refused() {
    for token in [text(3, 3), Token::new(Event::StartDocument, at(3, 3)), Token::new(Event::ProcessingInstruction, at(3, 3))] {
        let tokens = all(vec![
            leaf("node", &[("id", "1"), ("lat", "1"), ("lon", "2")], 1, 0),
            vec![token, end(4, 0)],
        ]);
        let mut reader = Events::new(&tokens);
        assert_eq!(read_document(&mut reader).err(), Some(unexpected(Context::Document, 3, 3)));
    }
    let tokens = [failure("no more", 3, 3)];
    let mut reader = Events::new(&tokens);
    assert_eq!(read_document(&mut reader).err(), Some(malformed("no more", 3, 3)));
}

#[test]
fn first_failure_ends_the_reading() {
    let tokens = all(vec![
        leaf("node", &[("id", "1"), ("lat", "1"), ("lon", "2")], 1, 0),
        leaf("node", &[("id", "2"), ("lon", "2")], 2, 0),
        leaf("way", &[], 3, 0),
        vec![end(4, 0)],
    ]);
    let mut reader = Events::new(&tokens);
    assert_eq!(read_document(&mut reader).err(), Some(missing("lat", 2, 0)));
    assert_eq!(reader.remaining(), 4);
    assert_eq!(read_events(&tokens[..]).err(), Some(unexpected(Context::Root, 1, 0)));
}

#[test]
fn second_way_of_an_identifier_is_read_and_dropped() {
    let tokens = all(vec![
        vec![open("way", &[("id", "5")], 1, 0)],
        leaf("nd", &[("ref", "1")], 1, 9),
        vec![close(1, 20), open("way", &[("id", "5")], 2, 0)],
        leaf("nd", &[("ref", "2")], 2, 9),
        vec![close(2, 20), end(3, 0)],
    ]);
    let mut reader = Events::new(&tokens);
    let osm = read_document(&mut reader).ok().unwrap();
    assert_eq!(osm.ways().len(), 1);
    assert_eq!(osm.get_way(5).unwrap().nodes(), &[1]);
}

//------------ whole documents

#[test]
fn prologue_is_passed_over() {
    let pi = || Token::new(Event::ProcessingInstruction, at(0, 5));
    let declaration = || Token::new(Event::StartDocument, at(0, 0));
    let body = || all(vec![vec![open("osm", &[], 1, 0)], leaf("way", &[("id", "3")], 2, 0), vec![end(3, 0)]]);
    for lead in [vec![], vec![pi()], vec![declaration()], vec![declaration(), pi(), pi()], vec![pi(), declaration(), pi()]] {
        let mut tokens = lead;
        tokens.extend(body());
        let osm = read_events(&tokens).ok().unwrap();
        assert!(osm.has_way(3));
    }
}

#[test]
fn root_element_has_to_be_osm() {
    let tokens = [Token::new(Event::StartDocument, at(0, 0)), open("gpx", &[], 1, 4), end(2, 0)];
    assert_eq!(read_events(&tokens).err(), Some(unexpected(Context::Root, 1, 4)));
    let tokens = [open("OSM", &[], 1, 4), end(2, 0)];
    assert_eq!(read_events(&tokens).err(), Some(unexpected(Context::Root, 1, 4)));
}

#[test]
fn anything_but_an_element_at_the_root_is_refused() {
    let tokens = [Token::new(Event::StartDocument, at(0, 0)), close(1, 4)];
    assert_eq!(read_events(&tokens).err(), Some(unexpected(Context::Root, 1, 4)));
    let tokens = [Token::new(Event::ProcessingInstruction, at(0, 0)), text(1, 4), open("osm", &[], 2, 0)];
    assert_eq!(read_events(&tokens).err(), Some(unexpected(Context::Root, 1, 4)));
    let tokens = [end(1, 4)];
    assert_eq!(read_events(&tokens).err(), Some(unexpected(Context::Root, 1, 4)));
    let tokens = [Token::new(Event::StartDocument, at(0, 3))];
    assert_eq!(read_events(&tokens).err(), Some(unexpected(Context::Root, 0, 3)));
    let tokens: [Token; 0] = [];
    assert_eq!(read_events(&tokens).err(), Some(unexpected(Context::Root, 0, 0)));
    let tokens = [Token::new(Event::StartDocument, at(0, 0)), failure("not XML", 0, 1)];
    assert_eq!(read_events(&tokens).err(), Some(malformed("not XML", 0, 1)));
}

#[test]
fn end_of_the_root_element_is_refused() {
    let tokens = all(vec![
        vec![open("osm", &[], 0, 0)],
        leaf("node", &[("id", "1"), ("lat", "1"), ("lon", "2")], 1, 0),
        vec![close(2, 0), end(2, 6)],
    ]);
    assert_eq!(read_events(&tokens).err(), Some(unexpected(Context::Document, 2, 0)));
}

#[test]
fn nodes_with_distinct_ids_are_all_kept() {
    let count: usize = 250;
    let mut tokens = vec![open("osm", &[], 0, 0)];
    for i in 0..count {
        let id = format!("{}", (i as i64) * 37 - 1000);
        tokens.push(open("node", &[("id", &id), ("lat", "1.5"), ("lon", "2.5")], 1 + i as u64, 0));
        if i % 2 == 0 {
            tokens.extend(leaf("tag", &[("k", "n"), ("v", &id)], 1 + i as u64, 30));
        }
        tokens.push(close(1 + i as u64, 40));
        if i % 3 == 0 {
            tokens.extend(leaf("way", &[("id", &id)], 1 + i as u64, 50));
        }
    }
    tokens.push(end(300, 0));
    let osm = read_events(&tokens).ok().unwrap();
    assert_eq!(osm.nodes().len(), count);
    for i in 0..count {
        assert!(osm.has_node((i as i64) * 37 - 1000));
    }
    assert_eq!(osm.get_node(-1000).unwrap().tags().get("n"), Some("-1000"));
    assert_eq!(osm.ways().len(), 84);
    let nothing = [open("osm", &[], 0, 0), end(1, 0)];
    assert_eq!(read_events(&nothing).ok().unwrap().nodes().len(), 0);
}

#[test]
fn first_element_of_an_identifier_stays() {
    let tokens = all(vec![
        vec![open("osm", &[], 0, 0), open("node", &[("id", "1"), ("lat", "1"), ("lon", "2")], 1, 0)],
        leaf("tag", &[("k", "name"), ("v", "first")], 1, 20),
        vec![close(1, 40), open("node", &[("id", "1"), ("lat", "3"), ("lon", "4")], 2, 0)],
        leaf("tag", &[("k", "name"), ("v", "second")], 2, 20),
        vec![close(2, 40), open("way", &[("id", "1")], 3, 0)],
        leaf("nd", &[("ref", "1")], 3, 20),
        vec![close(3, 40), open("way", &[("id", "1")], 4, 0)],
        leaf("nd", &[("ref", "2")], 4, 20),
        vec![close(4, 40)],
        leaf("relation", &[("id", "1")], 5, 0),
        vec![open("relation", &[("id", "1")], 6, 0)],
        leaf("member", &[("type", "node"), ("ref", "1"), ("role", "")], 6, 20),
        vec![close(6, 40), end(7, 0)],
    ]);
    let osm = read_events(&tokens).ok().unwrap();
    assert_eq!(osm.nodes().len(), 1);
    assert_eq!(osm.ways().len(), 1);
    assert_eq!(osm.relations().len(), 1);
    let node = osm.get_node(1).unwrap();
    assert_eq!(node.lat().as_str(), "1");
    assert_eq!(node.lon().as_str(), "2");
    assert_eq!(node.tags().get("name"), Some("first"));
    assert_eq!(osm.get_way(1).unwrap().nodes(), &[1]);
    assert!(osm.get_relation(1).unwrap().members().is_empty());
}

#[test]
fn a_failure_in_a_repeated_element_still_fails_the_document() {
    let tokens = all(vec![
        vec![open("osm", &[], 0, 0)],
        leaf("node", &[("id", "1"), ("lat", "1"), ("lon", "2")], 1, 0),
        leaf("node", &[("id", "1"), ("lat", "north"), ("lon", "4")], 2, 0),
        vec![end(7, 0)],
    ]);
    assert_eq!(
        read_events(&tokens).err(),
        Some(invalid("lat", "north", Cause::InvalidDecimal, 2, 0))
    );
}

#[test]
fn end_to_end() {
    let tokens = all(vec![
        vec![
            Token::new(Event::StartDocument, at(0, 0)),
            open("osm", &[], 0, 0),
            open("node", &[("id", "1"), ("lat", "52.1"), ("lon", "13.4")], 1, 2),
        ],
        leaf("tag", &[("k", "name"), ("v", "A")], 1, 40),
        vec![close(1, 63), open("way", &[("id", "10")], 2, 2)],
        leaf("nd", &[("ref", "1")], 2, 15),
        leaf("tag", &[("k", "highway"), ("v", "residential")], 2, 28),
        vec![close(2, 64), open("relation", &[("id", "100")], 3, 2)],
        leaf("member", &[("type", "way"), ("ref", "10"), ("role", "outer")], 3, 22),
        vec![close(3, 64), end(4, 6)],
    ]);
    let osm = read_events(&tokens).ok().unwrap();
    assert_eq!(osm.nodes().len(), 1);
    assert_eq!(osm.ways().len(), 1);
    assert_eq!(osm.relations().len(), 1);
    let node = osm.get_node(1).unwrap();
    assert_eq!(node.id(), 1);
    assert_eq!(node.lat().as_str().parse::<f64>(), Ok(52.1));
    assert_eq!(node.lon().as_str().parse::<f64>(), Ok(13.4));
    assert_eq!(node.tags().get("name"), Some("A"));
    let way = osm.get_way(10).unwrap();
    assert_eq!(way.id(), 10);
    assert_eq!(way.nodes(), &[1]);
    assert_eq!(way.tags().get("highway"), Some("residential"));
    let relation = osm.get_relation(100).unwrap();
    assert_eq!(relation.id(), 100);
    assert_eq!(relation.members(), &[Member::new(MemberType::Way, 10, "outer".to_string())]);
}
