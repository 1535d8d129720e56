use cjson::number::consume_number_token;
use cjson::number::consume_integer_part;
use cjson::string::utf16_literal_to_utf8;
use cjson::compare::cJSON_Compare;
use cjson::keys::{case_insensitive_strcmp, compare_bytes};
use cjson::merge_patch::{cJSONUtils_GenerateMergePatch, cJSONUtils_MergePatch};
use cjson::minify::cJSON_Minify;
use cjson::parse::{cJSON_GetErrorPtr, cJSON_Parse, cJSON_ParseWithLength, fill_numbers, ErrorState};
use cjson::patch::{
    cJSONUtils_AddPatchToArray, cJSONUtils_ApplyPatches, cJSONUtils_ApplyPatchesCaseSensitive,
    cJSONUtils_GeneratePatches,
};
use cjson::pointer::{
    cJSONUtils_FindPointerFromObjectTo, cJSONUtils_GetPointer, cJSONUtils_GetPointerCaseSensitive,
    decode_array_index_from_pointer, decode_pointer_token, encode_string_as_pointer,
    nul_terminated, split_parent_child, usize_to_digits,
};
use cjson::print::{cJSON_Print, cJSON_PrintUnformatted, collect_numbers};
use cjson::sort::{cJSONUtils_SortObject, cJSONUtils_SortObjectCaseSensitive};
use cjson::tree::{
    cJSON_AddItemToArray, cJSON_AddItemToObject, cJSON_CreateArray, cJSON_CreateNumber,
    cJSON_CreateObject, cJSON_CreateString, cJSON_DetachItemFromArray, cJSON_Duplicate,
    cJSON_GetArrayItem, cJSON_GetObjectItem, cJSON_GetObjectItemCaseSensitive,
    cJSON_InsertItemInArray, cJSON_IsNull, cJSON_IsNumber,
};
use cjson::types::{
    cJSON, cJSON_Array, cJSON_False, cJSON_Invalid, cJSON_IsReference, cJSON_NULL, cJSON_Number,
    cJSON_Object, cJSON_Raw, cJSON_String, cJSON_StringIsConst, cJSON_True,
};

fn number_of(text: &[u8]) -> (u64, i32) {
    let s = std::str::from_utf8(text).unwrap();
    let v: f64 = s.parse().unwrap();
    let i = if v >= i32::MAX as f64 {
        i32::MAX
    } else if v <= i32::MIN as f64 {
        i32::MIN
    } else {
        v as i32
    };
    (v.to_bits(), i)
}

fn parse(text: &str) -> cJSON {
    let mut error = ErrorState { position: None };
    let doc = match cJSON_ParseWithLength(text.as_bytes(), &mut error) {
        Ok(d) => d,
        Err(_) => panic!("parse failed"),
    };
    let values: Vec<(u64, i32)> = doc
        .numbers
        .iter()
        .map(|&(off, len)| number_of(&text.as_bytes()[off..off + len]))
        .collect();
    let mut item = doc.item;
    fill_numbers(&mut item, &values);
    item
}

fn number_text(bits: u64, valueint: i32) -> Vec<u8> {
    let v = f64::from_bits(bits);
    if v == valueint as f64 {
        format!("{}", valueint).into_bytes()
    } else {
        format!("{}", v).into_bytes()
    }
}

fn print(item: &cJSON) -> String {
    let texts: Vec<Vec<u8>> = collect_numbers(item)
        .iter()
        .map(|&(b, i)| number_text(b, i))
        .collect();
    String::from_utf8(cJSON_PrintUnformatted(item, &texts).unwrap()).unwrap()
}

fn num_eq(a: u64, b: u64) -> bool {
    let x = f64::from_bits(a);
    let y = f64::from_bits(b);
    (x - y).abs() <= x.abs().max(y.abs()) * f64::EPSILON
}

fn key_of(item: &cJSON) -> String {
    String::from_utf8(item.string.clone().unwrap()).unwrap()
}

#[test]
fn cjson_flag_constants_match_public_header() {
    assert_eq!(cJSON_Invalid, 0);
    assert_eq!(cJSON_False, 1);
    assert_eq!(cJSON_True, 2);
    assert_eq!(cJSON_NULL, 4);
    assert_eq!(cJSON_Number, 8);
    assert_eq!(cJSON_String, 16);
    assert_eq!(cJSON_Array, 32);
    assert_eq!(cJSON_Object, 64);
    assert_eq!(cJSON_Raw, 128);
    assert_eq!(cJSON_IsReference, 256);
    assert_eq!(cJSON_StringIsConst, 512);
}

#[test]
fn parse_then_print_unformatted() {
    let item = parse("{ \"a\" : [1, 2.5, {\"b\": null}], \"c\": \"x\\ny\", \"t\": true }");
    assert_eq!(print(&item), "{\"a\":[1,2.5,{\"b\":null}],\"c\":\"x\\ny\",\"t\":true}");
}

#[test]
fn parse_error_position_is_recorded() {
    let mut error = ErrorState { position: None };
    let r = cJSON_Parse(b"[1, }", &mut error);
    assert!(r.is_err());
    assert_eq!(cJSON_GetErrorPtr(&error), Some(4));
}

#[test]
fn minify_removes_white_space_and_comments() {
    let mut json = b" { \"a\" : 1 , // note\n \"b\" : /* x */ \"c d\" } ".to_vec();
    cJSON_Minify(&mut json);
    assert_eq!(json, b"{\"a\":1,\"b\":\"c d\"}".to_vec());
}

#[test]
fn pointer_tokens_are_escaped_and_decoded() {
    let mut out = b"/".to_vec();
    encode_string_as_pointer(&mut out, b"a/b~c");
    assert_eq!(out, b"/a~1b~0c".to_vec());
    assert_eq!(decode_pointer_token(b"a~1b~0c"), Some(b"a/b~c".to_vec()));
    assert_eq!(decode_pointer_token(b"a~2"), None);
    assert_eq!(decode_pointer_token(b"a~"), None);
}

#[test]
fn pointer_array_indices() {
    assert_eq!(decode_array_index_from_pointer(b"0"), Some(0));
    assert_eq!(decode_array_index_from_pointer(b"42"), Some(42));
    assert_eq!(decode_array_index_from_pointer(b"01"), None);
    assert_eq!(decode_array_index_from_pointer(b""), None);
    assert_eq!(decode_array_index_from_pointer(b"1a"), None);
    assert_eq!(decode_array_index_from_pointer(b"-"), None);
    assert_eq!(decode_array_index_from_pointer(b"99999999999999999999999"), None);
    assert_eq!(usize_to_digits(0), b"0".to_vec());
    assert_eq!(usize_to_digits(1207), b"1207".to_vec());
    let digits = usize_to_digits(987);
    assert_eq!(decode_array_index_from_pointer(&digits), Some(987));
}

#[test]
fn pointer_split_and_terminate() {
    let (parent, child) = split_parent_child(b"/a/b/c").unwrap();
    assert_eq!(parent, b"/a/b");
    assert_eq!(child, b"c");
    let (parent, child) = split_parent_child(b"/x").unwrap();
    assert_eq!(parent, b"");
    assert_eq!(child, b"x");
    assert!(split_parent_child(b"abc").is_none());
    assert_eq!(nul_terminated(b"ab"), b"ab\0".to_vec());
}

#[test]
fn get_pointer_follows_rfc6901() {
    let doc = parse("{\"foo\":[\"bar\",\"baz\"],\"\":0,\"a/b\":1,\"m~n\":8,\"Key\":5}");
    assert_eq!(print(cJSONUtils_GetPointer(&doc, b"").unwrap()), print(&doc));
    assert_eq!(print(cJSONUtils_GetPointer(&doc, b"/foo").unwrap()), "[\"bar\",\"baz\"]");
    assert_eq!(print(cJSONUtils_GetPointer(&doc, b"/foo/0").unwrap()), "\"bar\"");
    assert_eq!(print(cJSONUtils_GetPointer(&doc, b"/").unwrap()), "0");
    assert_eq!(print(cJSONUtils_GetPointer(&doc, b"/a~1b").unwrap()), "1");
    assert_eq!(print(cJSONUtils_GetPointer(&doc, b"/m~0n").unwrap()), "8");
    assert!(cJSONUtils_GetPointer(&doc, b"/foo/2").is_none());
    assert!(cJSONUtils_GetPointer(&doc, b"foo").is_none());
    assert!(cJSONUtils_GetPointer(&doc, b"/foo/01").is_none());
    assert_eq!(print(cJSONUtils_GetPointer(&doc, b"/key").unwrap()), "5");
    assert!(cJSONUtils_GetPointerCaseSensitive(&doc, b"/key").is_none());
}

#[test]
fn find_pointer_then_get_pointer_gives_the_target() {
    let doc = parse("{\"foo\":[\"bar\",{\"a/b\":true}],\"x\":1}");
    let pointer = cJSONUtils_FindPointerFromObjectTo(&doc, &[0, 1, 0]).unwrap();
    assert_eq!(pointer, b"/foo/1/a~1b".to_vec());
    assert_eq!(print(cJSONUtils_GetPointer(&doc, &pointer).unwrap()), "true");
    assert_eq!(cJSONUtils_FindPointerFromObjectTo(&doc, &[]), Some(Vec::new()));
    assert_eq!(cJSONUtils_FindPointerFromObjectTo(&doc, &[5]), None);
}

#[test]
fn sort_object_orders_members_by_key() {
    let mut doc = parse("{\"b\":1,\"a\":2,\"C\":3}");
    cJSONUtils_SortObject(&mut doc);
    let keys: Vec<String> = doc.child.iter().map(key_of).collect();
    assert_eq!(keys, vec!["a", "b", "C"]);
    cJSONUtils_SortObjectCaseSensitive(&mut doc);
    let keys: Vec<String> = doc.child.iter().map(key_of).collect();
    assert_eq!(keys, vec!["C", "a", "b"]);
}

#[test]
fn sort_object_is_stable_for_equal_keys() {
    let mut doc = parse("{\"b\":1,\"A\":2,\"a\":3}");
    cJSONUtils_SortObject(&mut doc);
    assert_eq!(print(&doc), "{\"A\":2,\"a\":3,\"b\":1}");
}

#[test]
fn apply_patches_follows_rfc6902() {
    let mut doc = parse("{\"a\":{\"b\":[1,2]},\"c\":\"d\"}");
    let mut patches = parse(
        "[{\"op\":\"add\",\"path\":\"/a/b/1\",\"value\":9},\
          {\"op\":\"remove\",\"path\":\"/c\"},\
          {\"op\":\"replace\",\"path\":\"/a/b/0\",\"value\":\"z\"},\
          {\"op\":\"copy\",\"from\":\"/a/b\",\"path\":\"/e\"},\
          {\"op\":\"move\",\"from\":\"/a\",\"path\":\"/f\"},\
          {\"op\":\"add\",\"path\":\"/e/-\",\"value\":null},\
          {\"op\":\"test\",\"path\":\"/f/b/1\",\"value\":9}]",
    );
    assert_eq!(cJSONUtils_ApplyPatches(&mut doc, &mut patches, &num_eq), 0);
    assert_eq!(print(&doc), "{\"e\":[\"z\",9,2,null],\"f\":{\"b\":[\"z\",9,2]}}");
}

#[test]
fn apply_patches_status_codes() {
    let cases: Vec<(&str, i32)> = vec![
        ("[{\"op\":\"add\",\"value\":1}]", 2),
        ("[{\"op\":\"frobnicate\",\"path\":\"/a\"}]", 3),
        ("[{\"op\":\"move\",\"path\":\"/b\"}]", 4),
        ("[{\"op\":\"copy\",\"from\":\"/zz\",\"path\":\"/b\"}]", 5),
        ("[{\"op\":\"add\",\"path\":\"/b\"}]", 7),
        ("[{\"op\":\"add\",\"path\":\"/q/r\",\"value\":1}]", 9),
        ("[{\"op\":\"add\",\"path\":\"/l/5\",\"value\":1}]", 10),
        ("[{\"op\":\"add\",\"path\":\"/l/x\",\"value\":1}]", 11),
        ("[{\"op\":\"remove\",\"path\":\"/nope\"}]", 13),
        ("[{\"op\":\"test\",\"path\":\"/a\",\"value\":2}]", 1),
        ("[{\"op\":\"test\",\"path\":\"/a\",\"value\":1}]", 0),
    ];
    for (text, status) in cases {
        let mut doc = parse("{\"a\":1,\"l\":[0]}");
        let mut patches = parse(text);
        assert_eq!(cJSONUtils_ApplyPatchesCaseSensitive(&mut doc, &mut patches, &num_eq), status, "{}", text);
    }
    let mut doc = parse("{\"a\":1}");
    let mut not_array = parse("{}");
    assert_eq!(cJSONUtils_ApplyPatches(&mut doc, &mut not_array, &num_eq), 1);
}

#[test]
fn apply_patches_on_the_root() {
    let mut doc = parse("{\"a\":1}");
    let mut patches = parse("[{\"op\":\"replace\",\"path\":\"\",\"value\":[true]}]");
    assert_eq!(cJSONUtils_ApplyPatches(&mut doc, &mut patches, &num_eq), 0);
    assert_eq!(print(&doc), "[true]");
    assert!(doc.string.is_none());
    let mut patches = parse("[{\"op\":\"remove\",\"path\":\"\"}]");
    assert_eq!(cJSONUtils_ApplyPatches(&mut doc, &mut patches, &num_eq), 0);
    assert_eq!(doc.type_, cJSON_Invalid);
}

#[test]
fn generated_patches_turn_from_into_to() {
    let mut from = parse("{\"a\":1,\"b\":[1,2,3],\"c\":\"x\"}");
    let mut to = parse("{\"a\":1,\"b\":[1,5],\"d\":false}");
    let mut patches = cJSONUtils_GeneratePatches(&mut from, &mut to, &num_eq);
    assert_eq!(
        print(&patches),
        "[{\"op\":\"replace\",\"path\":\"/b/1\",\"value\":5},\
          {\"op\":\"remove\",\"path\":\"/b/2\"},\
          {\"op\":\"remove\",\"path\":\"/c\"},\
          {\"op\":\"add\",\"path\":\"/d\",\"value\":false}]"
    );
    let mut doc = parse("{\"a\":1,\"b\":[1,2,3],\"c\":\"x\"}");
    assert_eq!(cJSONUtils_ApplyPatches(&mut doc, &mut patches, &num_eq), 0);
    assert!(cJSON_Compare(&doc, &to, true, &num_eq));
}

#[test]
fn add_patch_to_array_builds_a_patch() {
    let mut array = cJSON_CreateArray();
    let value = cJSON_CreateString(b"v");
    cJSONUtils_AddPatchToArray(&mut array, b"add", b"/x", Some(&value));
    cJSONUtils_AddPatchToArray(&mut array, b"remove", b"/y", None);
    assert_eq!(
        print(&array),
        "[{\"op\":\"add\",\"path\":\"/x\",\"value\":\"v\"},{\"op\":\"remove\",\"path\":\"/y\"}]"
    );
}

#[test]
fn merge_patch_follows_rfc7386() {
    let target = parse("{\"a\":\"b\",\"c\":{\"d\":\"e\",\"f\":\"g\"}}");
    let patch = parse("{\"a\":\"z\",\"c\":{\"f\":null}}");
    let merged = cJSONUtils_MergePatch(Some(target), &patch);
    assert_eq!(print(&merged), "{\"a\":\"z\",\"c\":{\"d\":\"e\"}}");
    let replaced = cJSONUtils_MergePatch(Some(parse("{\"a\":1}")), &parse("[1]"));
    assert_eq!(print(&replaced), "[1]");
    let from_nothing = cJSONUtils_MergePatch(None, &parse("{\"a\":{\"b\":null}}"));
    assert_eq!(print(&from_nothing), "{\"a\":{}}");
}

#[test]
fn generate_merge_patch_gives_the_difference() {
    let mut from = parse("{\"a\":1,\"b\":2,\"n\":{\"x\":1}}");
    let mut to = parse("{\"a\":1,\"c\":3,\"n\":{\"x\":2}}");
    let patch = cJSONUtils_GenerateMergePatch(&mut from, &mut to, &num_eq).unwrap();
    assert_eq!(print(&patch), "{\"b\":null,\"c\":3,\"n\":{\"x\":2}}");
    let merged = cJSONUtils_MergePatch(Some(parse("{\"a\":1,\"b\":2,\"n\":{\"x\":1}}")), &patch);
    assert!(cJSON_Compare(&merged, &to, true, &num_eq));
    let mut same_a = parse("{\"a\":[1]}");
    let mut same_b = parse("{\"a\":[1]}");
    assert!(cJSONUtils_GenerateMergePatch(&mut same_a, &mut same_b, &num_eq).is_none());
}

#[test]
fn compare_is_symmetric() {
    let a = parse("{\"x\":[1,2],\"y\":\"s\"}");
    let b = parse("{\"y\":\"s\",\"x\":[1,2]}");
    let c = parse("{\"y\":\"s\",\"x\":[1,3]}");
    assert!(cJSON_Compare(&a, &b, true, &num_eq));
    assert!(cJSON_Compare(&b, &a, true, &num_eq));
    assert!(!cJSON_Compare(&a, &c, true, &num_eq));
    assert!(!cJSON_Compare(&c, &a, true, &num_eq));
}

#[test]
fn duplicate_compares_equal() {
    let a = parse("{\"x\":[1,{\"z\":null}],\"y\":\"s\"}");
    let d = cJSON_Duplicate(&a, 1);
    assert!(cJSON_Compare(&a, &d, false, &num_eq));
    let shallow = cJSON_Duplicate(&a, 0);
    assert!(shallow.child.is_empty());
}

#[test]
fn insert_then_detach_gives_the_item_back() {
    let mut array = parse("[1,2,3]");
    let before = print(&array);
    assert!(cJSON_InsertItemInArray(&mut array, 1, cJSON_CreateString(b"new")));
    assert_eq!(print(&array), "[1,\"new\",2,3]");
    let detached = cJSON_DetachItemFromArray(&mut array, 1).unwrap();
    assert_eq!(print(&detached), "\"new\"");
    assert_eq!(print(&array), before);
    assert!(!cJSON_InsertItemInArray(&mut array, -1, cJSON_CreateArray()));
    assert!(cJSON_DetachItemFromArray(&mut array, 3).is_none());
}

#[test]
fn add_then_get_finds_the_member() {
    let mut object = cJSON_CreateObject();
    assert!(cJSON_AddItemToObject(&mut object, b"Key", cJSON_CreateNumber(2.5f64.to_bits(), 2)));
    let found = cJSON_GetObjectItem(&object, b"kEY").unwrap();
    assert!(cJSON_IsNumber(found));
    assert_eq!(found.valuedouble, 2.5f64.to_bits());
    assert!(cJSON_GetObjectItemCaseSensitive(&object, b"kEY").is_none());
    let mut array = cJSON_CreateArray();
    assert!(cJSON_AddItemToArray(&mut array, cJSON_CreateObject()));
    assert!(cJSON_GetArrayItem(&array, 0).is_some());
    assert!(!cJSON_IsNull(cJSON_GetArrayItem(&array, 0).unwrap()));
}

#[test]
fn key_comparison_is_strcmp_like() {
    assert_eq!(case_insensitive_strcmp(b"ABC", b"abc"), 0);
    assert!(case_insensitive_strcmp(b"abc", b"abd") < 0);
    assert!(compare_bytes(b"B", b"a", true) < 0);
    assert!(compare_bytes(b"B", b"a", false) > 0);
    assert!(compare_bytes(b"ab", b"a", true) > 0);
}

#[test]
fn string_printed_then_parsed_is_the_same() {
    let s = b"a\"b\\c\x01\n\t/\x7f\xc3\xa9".to_vec();
    let item = cJSON_CreateString(&s);
    let text = cJSON_PrintUnformatted(&item, &[]).unwrap();
    assert_eq!(text, b"\"a\\\"b\\\\c\\u0001\\n\\t/\x7f\xc3\xa9\"".to_vec());
    let mut error = ErrorState { position: None };
    let doc = match cJSON_ParseWithLength(&text, &mut error) {
        Ok(d) => d,
        Err(_) => panic!("parse failed"),
    };
    assert_eq!(doc.item.valuestring, Some(s));
    assert_eq!(doc.end, text.len());
}

#[test]
fn append_then_detach_gives_the_item_back() {
    let mut array = parse("[true]");
    assert!(cJSON_AddItemToArray(&mut array, cJSON_CreateString(b"z")));
    let last = cJSON_DetachItemFromArray(&mut array, 1).unwrap();
    assert_eq!(print(&last), "\"z\"");
    assert_eq!(print(&array), "[true]");
}

#[test]
fn printed_document_parses_back() {
    let mut object = cJSON_CreateObject();
    let mut list = cJSON_CreateArray();
    assert!(cJSON_AddItemToArray(&mut list, cjson::tree::cJSON_CreateTrue()));
    assert!(cJSON_AddItemToArray(&mut list, cjson::tree::cJSON_CreateNull()));
    assert!(cJSON_AddItemToArray(&mut list, cJSON_CreateString(b"tab\there \"q\" \x02")));
    assert!(cJSON_AddItemToObject(&mut object, b"list", list));
    assert!(cjson::tree::cJSON_AddItemToObjectCS(&mut object, b"k\xc3\xa9y", cJSON_CreateObject()));
    let text = cJSON_PrintUnformatted(&object, &[]).unwrap();
    assert_eq!(
        text,
        b"{\"list\":[true,null,\"tab\\there \\\"q\\\" \\u0002\"],\"k\xc3\xa9y\":{}}".to_vec()
    );
    let mut error = ErrorState { position: None };
    let doc = match cJSON_ParseWithLength(&text, &mut error) {
        Ok(d) => d,
        Err(_) => panic!("parse failed"),
    };
    assert_eq!(doc.end, text.len());
    assert_eq!(cJSON_PrintUnformatted(&doc.item, &[]).unwrap(), text);
    let key = &doc.item.child[1];
    assert_eq!(key.type_, cJSON_Object);
    assert_eq!(key.string, Some(b"k\xc3\xa9y".to_vec()));
    assert_eq!(doc.item.child[0].child[0].valueint, 1);
}

#[test]
fn replace_then_get_finds_the_new_value() {
    let mut object = parse("{\"a\":1,\"B\":2,\"c\":3}");
    assert!(cjson::tree::cJSON_ReplaceItemInObject(&mut object, b"b", cJSON_CreateString(b"new")));
    assert_eq!(print(&object), "{\"a\":1,\"b\":\"new\",\"c\":3}");
    assert_eq!(print(cJSON_GetObjectItem(&object, b"b").unwrap()), "\"new\"");
    assert!(!cjson::tree::cJSON_ReplaceItemInObjectCaseSensitive(&mut object, b"B", cJSON_CreateObject()));
}

#[test]
fn formatted_printing_uses_tabs_and_new_lines() {
    let item = parse("{\"a\":1,\"b\":[1,2],\"c\":{}}");
    let texts: Vec<Vec<u8>> = collect_numbers(&item).iter().map(|&(b, i)| number_text(b, i)).collect();
    let text = cjson::print::cJSON_Print(&item, &texts).unwrap();
    assert_eq!(
        String::from_utf8(text).unwrap(),
        "{\n\t\"a\":\t1,\n\t\"b\":\t[1, 2],\n\t\"c\":\t{\n\t}\n}"
    );
}

#[test]
fn preallocated_printing_needs_room_for_each_write() {
    let item = parse("[true]");
    let mut buffer: Vec<u8> = vec![b'x'; 7];
    assert!(!cjson::print::cJSON_PrintPreallocated(&item, &mut buffer, 7, false, &[]));
    assert_eq!(buffer.len(), 7);
    let mut buffer: Vec<u8> = vec![b'x'; 10];
    assert!(cjson::print::cJSON_PrintPreallocated(&item, &mut buffer, 8, false, &[]));
    assert_eq!(buffer, b"[true]\0xxx".to_vec());
    assert!(cjson::print::cJSON_PrintBuffered(&item, -1, false, &[]).is_none());
}

#[test]
fn parse_requires_the_terminator_when_asked() {
    let mut error = ErrorState { position: None };
    assert!(cjson::parse::cJSON_ParseWithOpts(b"[1] x", true, &mut error).is_err());
    assert_eq!(cJSON_GetErrorPtr(&error), Some(4));
    assert!(cjson::parse::cJSON_ParseWithOpts(b"[1]  ", true, &mut error).is_ok());
    assert_eq!(cJSON_GetErrorPtr(&error), None);
    assert!(cJSON_ParseWithLength(b"", &mut error).is_err());
}

#[test]
fn number_tokens_are_scanned() {
    assert_eq!(cjson::number::consume_number_token(b"-12.5e+3,"), Some(8));
    assert_eq!(cjson::number::consume_number_token(b"01"), None);
    assert_eq!(cjson::number::consume_number_token(b"0.5"), Some(3));
    assert_eq!(cjson::number::consume_number_token(b"1."), None);
    assert_eq!(cjson::number::consume_number_token(b"-"), None);
    assert_eq!(cjson::number::consume_numeric_candidate(b"1e5]"), 3);
}

#[test]
fn unicode_escapes_become_utf8() {
    let mut out: Vec<u8> = Vec::new();
    assert_eq!(cjson::string::utf16_literal_to_utf8(b"\\u00e9", &mut out), Some(6));
    assert_eq!(out, "é".as_bytes().to_vec());
    let mut out: Vec<u8> = Vec::new();
    assert_eq!(cjson::string::utf16_literal_to_utf8(b"\\ud83d\\ude00", &mut out), Some(12));
    assert_eq!(out, "😀".as_bytes().to_vec());
    let mut out: Vec<u8> = Vec::new();
    assert_eq!(cjson::string::utf16_literal_to_utf8(b"\\udc00", &mut out), None);
    assert_eq!(cjson::string::parse_hex4(b"00Ff"), Some(255));
    assert_eq!(cjson::string::parse_hex4(b"0g00"), None);
}

#[test]
fn formatted_document_parses_back() {
    let item = parse("{\"a\":[true,{\"b\":null,\"c\":\"x\"}],\"d\":{},\"e\":[]}");
    let text = cjson::print::cJSON_Print(&item, &[]).unwrap();
    let mut error = ErrorState { position: None };
    let doc = match cJSON_ParseWithLength(&text, &mut error) {
        Ok(d) => d,
        Err(_) => panic!("parse failed"),
    };
    assert_eq!(doc.end, text.len());
    assert_eq!(cjson::print::cJSON_Print(&doc.item, &[]).unwrap(), text);
    assert_eq!(print(&doc.item), print(&item));
}

#[test]
fn minified_formatted_print_is_the_unformatted_print() {
    let mut object = cJSON_CreateObject();
    let mut list = cJSON_CreateArray();
    assert!(cJSON_AddItemToArray(&mut list, cjson::tree::cJSON_CreateFalse()));
    assert!(cJSON_AddItemToArray(&mut list, cJSON_CreateString(b"a \"b\" \\c\t// /*x*/")));
    assert!(cJSON_AddItemToArray(&mut list, cJSON_CreateObject()));
    assert!(cJSON_AddItemToObject(&mut object, b"list", list));
    assert!(cJSON_AddItemToObject(&mut object, b"e m", cjson::tree::cJSON_CreateNull()));
    let mut formatted = cJSON_Print(&object, &[]).unwrap();
    assert_eq!(
        formatted,
        b"{\n\t\"list\":\t[false, \"a \\\"b\\\" \\\\c\\t// /*x*/\", {\n\t\t}],\n\t\"e m\":\tnull\n}"
            .to_vec()
    );
    cJSON_Minify(&mut formatted);
    assert_eq!(formatted, cJSON_PrintUnformatted(&object, &[]).unwrap());
    assert_eq!(
        formatted,
        b"{\"list\":[false,\"a \\\"b\\\" \\\\c\\t// /*x*/\",{}],\"e m\":null}".to_vec()
    );
}

#[test]
fn minify_keeps_whitespace_after_a_key_ending_in_backslash() {
    let mut object = cJSON_CreateObject();
    assert!(cJSON_AddItemToObject(&mut object, b"a\\", cjson::tree::cJSON_CreateNull()));
    let mut formatted = cJSON_Print(&object, &[]).unwrap();
    cJSON_Minify(&mut formatted);
    assert_eq!(formatted, b"{\"a\\\\\":\tnull\n}".to_vec());
    assert_ne!(formatted, cJSON_PrintUnformatted(&object, &[]).unwrap());
}

#[test]
fn minifying_twice_is_minifying_once() {
    let mut json = b"{ \"a b\" : [1, 2] , // note\n \"c\\\"/*\" : \"x\\\\\" /* block */ , \"d\": / 3 } /* open".to_vec();
    cJSON_Minify(&mut json);
    assert_eq!(json, b"{\"a b\":[1,2],\"c\\\"/*\":\"x\\\\\" /* block */ , \"d\": / 3 } /* open".to_vec());
    let once = json.clone();
    cJSON_Minify(&mut json);
    assert_eq!(json, once);
}

#[test]
fn no_patches_between_a_value_and_itself() {
    let text = "{\"z\":[1,{\"b\":\"s\",\"a\":null}],\"A\":2.5,\"m\":{}}";
    let mut from = parse(text);
    let mut to = parse(text);
    let patches = cJSONUtils_GeneratePatches(&mut from, &mut to, &num_eq);
    assert_eq!(print(&patches), "[]");
    assert_eq!(print(&from), print(&to));
    assert_eq!(print(&from), "{\"A\":2.5,\"m\":{},\"z\":[1,{\"a\":null,\"b\":\"s\"}]}");
}

#[test]
fn a_node_compares_equal_to_itself() {
    let empty = cjson::types::new_typed_item(cJSON_String);
    let other = cjson::types::new_typed_item(cJSON_String);
    assert!(cJSON_Compare(&empty, &empty, true, &num_eq));
    assert!(!cJSON_Compare(&empty, &other, true, &num_eq));
    let nan = cJSON_CreateNumber(f64::NAN.to_bits(), 0);
    let nan2 = cJSON_CreateNumber(f64::NAN.to_bits(), 0);
    assert!(cJSON_Compare(&nan, &nan, true, &num_eq));
    assert!(!cJSON_Compare(&nan, &nan2, true, &num_eq));
    let unknown = cjson::types::new_typed_item(cJSON_Invalid);
    assert!(!cJSON_Compare(&unknown, &unknown, true, &num_eq));
}

#[test]
fn integer_part_leaves_the_index_as_it_read() {
    let mut i: usize = 0;
    assert_eq!(consume_integer_part(b"0123", &mut i), None);
    assert_eq!(i, 1);
    let mut i: usize = 0;
    assert_eq!(consume_integer_part(b"120a", &mut i), Some(()));
    assert_eq!(i, 3);
    let mut i: usize = 1;
    assert_eq!(consume_integer_part(b"-7", &mut i), Some(()));
    assert_eq!(i, 2);
    let mut i: usize = 0;
    assert_eq!(consume_integer_part(b"a", &mut i), None);
    assert_eq!(i, 0);
}

#[test]
fn bad_unicode_escape_leaves_the_output() {
    let inputs: [&[u8]; 6] = [
        br"\udc00",
        br"\ud83d",
        br"\ud83d\u0041",
        br"\ud83dx\ude00",
        br"\u12",
        br"u0041xx",
    ];
    for input in inputs.iter() {
        let mut out = b"ab".to_vec();
        assert_eq!(utf16_literal_to_utf8(input, &mut out), None);
        assert_eq!(out, b"ab".to_vec());
    }
    let mut out = Vec::new();
    assert_eq!(utf16_literal_to_utf8(br"\ud83d\ude00", &mut out), Some(12));
    assert_eq!(out, "\u{1F600}".as_bytes().to_vec());
}

#[test]
fn sorting_keeps_equal_keys_in_order() {
    let mut object = parse("{\"b\":1,\"A\":2,\"a\":3,\"B\":4}");
    cJSONUtils_SortObject(&mut object);
    assert_eq!(print(&object), "{\"A\":2,\"a\":3,\"b\":1,\"B\":4}");
    let mut object = parse("{\"b\":1,\"a\":2,\"C\":3}");
    cJSONUtils_SortObjectCaseSensitive(&mut object);
    assert_eq!(print(&object), "{\"C\":3,\"a\":2,\"b\":1}");
}

#[test]
fn equal_values_give_no_patches() {
    let mut from = parse("{\"a\":[1,{\"y\":2,\"x\":1}],\"b\":\"x\"}");
    let mut to = parse("{\"b\":\"x\",\"a\":[1,{\"x\":1,\"y\":2}]}");
    assert!(cJSON_Compare(&from, &to, false, &num_eq));
    let patches = cJSONUtils_GeneratePatches(&mut from, &mut to, &num_eq);
    assert_eq!(print(&patches), "[]");
    assert_eq!(print(&from), "{\"a\":[1,{\"x\":1,\"y\":2}],\"b\":\"x\"}");
    assert_eq!(print(&to), print(&from));
}

#[test]
fn a_duplicate_compares_equal_but_for_nan() {
    let item = parse("[1.5,{\"k\":[true,\"s\"]}]");
    let copy = cJSON_Duplicate(&item, 1);
    assert!(cJSON_Compare(&copy, &item, true, &num_eq));
    let mut nan = cJSON_CreateArray();
    assert!(cJSON_AddItemToArray(&mut nan, cJSON_CreateNumber(f64::NAN.to_bits(), 0)));
    let copy = cJSON_Duplicate(&nan, 1);
    assert!(!cJSON_Compare(&copy, &nan, true, &num_eq));
}

#[test]
fn number_token_is_the_longest_json_number() {
    assert_eq!(consume_number_token(b"-12.5e+3x"), Some(8));
    assert_eq!(consume_number_token(b"0,1"), Some(1));
    assert_eq!(consume_number_token(b"1.5.2"), Some(3));
    assert_eq!(consume_number_token(b"7E2]"), Some(3));
    assert_eq!(consume_number_token(b"1.x"), None);
    assert_eq!(consume_number_token(b"01"), None);
    assert_eq!(consume_number_token(b"-"), None);
    assert_eq!(consume_number_token(b"2e"), None);
}

#[test]
fn placement_statuses_for_every_operation() {
    let cases: Vec<(&str, i32, &str)> = vec![
        ("[{\"op\":\"move\",\"from\":\"/a\",\"path\":\"/l/5\"}]", 10, "{\"l\":[0]}"),
        ("[{\"op\":\"copy\",\"from\":\"/a\",\"path\":\"/l/x\"}]", 11, "{\"a\":1,\"l\":[0]}"),
        ("[{\"op\":\"move\",\"from\":\"/a\",\"path\":\"/q/r\"}]", 9, "{\"l\":[0]}"),
        ("[{\"op\":\"copy\",\"from\":\"/a\",\"path\":\"/a/r\"}]", 9, "{\"a\":1,\"l\":[0]}"),
        ("[{\"op\":\"replace\",\"path\":\"/l/0\"}]", 7, "{\"a\":1,\"l\":[]}"),
        ("[{\"op\":\"move\",\"from\":\"/zz\",\"path\":\"/b\"}]", 5, "{\"a\":1,\"l\":[0]}"),
    ];
    for (text, status, after) in cases {
        let mut doc = parse("{\"a\":1,\"l\":[0]}");
        let mut patches = parse(text);
        assert_eq!(cJSONUtils_ApplyPatchesCaseSensitive(&mut doc, &mut patches, &num_eq), status, "{}", text);
        assert_eq!(print(&doc), after, "{}", text);
    }
}

#[test]
fn generating_patches_only_reorders_members() {
    let mut from = parse("{\"b\":[{\"q\":1,\"p\":2}],\"a\":{\"y\":1,\"x\":2}}");
    let mut to = parse("{\"a\":{\"x\":2}}");
    let patches = cJSONUtils_GeneratePatches(&mut from, &mut to, &num_eq);
    assert_eq!(
        print(&patches),
        "[{\"op\":\"remove\",\"path\":\"/a/y\"},{\"op\":\"remove\",\"path\":\"/b\"}]"
    );
    assert_eq!(print(&from), "{\"a\":{\"x\":2,\"y\":1},\"b\":[{\"q\":1,\"p\":2}]}");
    assert_eq!(print(&to), "{\"a\":{\"x\":2}}");
}
