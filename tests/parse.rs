use blendshapes::record::{ParseError, Value};

const TEST_DATA: &str = "mouthSmile_R-0|eyeLookOut_L-0|mouthUpperUp_L-11|eyeWide_R-0|mouthClose-8|mouthPucker-4|mouthRollLower-9|eyeBlink_R-7|eyeLookDown_L-17|cheekSquint_R-11|eyeBlink_L-7|tongueOut-0|jawRight-0|eyeLookIn_R-6|cheekSquint_L-11|mouthDimple_L-10|mouthPress_L-4|eyeSquint_L-11|mouthRight-0|mouthShrugLower-9|eyeLookUp_R-0|eyeLookOut_R-0|mouthPress_R-5|cheekPuff-2|jawForward-11|mouthLowerDown_L-9|mouthFrown_L-6|mouthShrugUpper-26|browOuterUp_L-4|browInnerUp-20|mouthDimple_R-10|browDown_R-0|mouthUpperUp_R-10|mouthRollUpper-8|mouthFunnel-12|mouthStretch_R-21|mouthFrown_R-13|eyeLookDown_R-17|jawOpen-12|jawLeft-0|browDown_L-0|mouthSmile_L-0|noseSneer_R-18|mouthLowerDown_R-8|noseSneer_L-21|eyeWide_L-0|mouthStretch_L-21|browOuterUp_R-4|eyeLookIn_L-4|eyeSquint_R-11|eyeLookUp_L-0|mouthLeft-1|=head#-21.488958,-6.038993,-6.6019735,-0.030653415,-0.10287084,-0.6584072|rightEye#6.0297494,2.4403017,0.25649446|leftEye#6.034903,-1.6660284,-0.17520553|";
const INVALID_DATA: &str = "mouthLeft-0|browInnerUp-6|mouthLowerDown_L-4|mouthDimple_R-2|mouthFunnel-5|eyeSquint_L-12|browOuterUp_L-0|mouthUpperUp_L-4|mouthFrown_R-2|eyeLookOut_R-0|mouthShrugUpper-11|eyeSquint_R-12|eyeLookDown_R-15|mouthRollLower-6|eyeLookDown_L-16|cheekSquint_L-9|mouthSmile_L-0|mouthRight-0|mouthDimple_L-2|jawRight-0|mouthPucker-24|mouthRollUpper-1|mouthPress_L-8|eyeLookOut_L-0|browDown_R-13|cheekSquint_R-8|mouthFrown_L-3|tongueOut-0|mouthPress_R-10|browDown_L-12|mouthLowerDown_R-4|eyeWide_L-2|cheekPuff-7|mouthSmile_R-0|eyeLookIn_L-0|eyeLookUp_L-0|jawForward-3|jawLeft-4|noseSneer_L-13|jawOpen-2|mouthStretch_R-8|eyeLookUp_R-0|mouthClose-4|eyeWide_R-2|eyeBlink_L-2|eyeLookIn_R-12|noseSneer_R-9|eyeBlink_R-2|mouthUpperUp_R-4|browOuterUp_R-0|mouthStretch_L-9|mouthShrugLower-14|hapihapi-0|=head#25.409164,-5.085786,3.8090365,0.052303925,0.2366666,-0.0259732|rightEye#5.2707267,4.227702,0.41178665|leftEye#5.300755,0.32921365,0.03218361|-0.67254096|||||3|";

fn floats(t: &[String; 3]) -> [f32; 3] {
    [t[0].parse().unwrap(), t[1].parse().unwrap(), t[2].parse().unwrap()]
}

#[test]
fn it_works() {
    let a = Value::parse_str(TEST_DATA);
    assert!(a.is_ok());
}

#[test]
fn lossy_test() {
    let a = Value::parse_str_lossy(INVALID_DATA);
    assert!(a.is_ok());
}

#[test]
fn sample_tables_hold_the_entries() {
    let a = Value::parse_str(TEST_DATA).unwrap();
    assert_eq!(a.int_keys.get("mouthShrugUpper"), Some(&26));
    assert_eq!(a.int_keys.get("tongueOut"), Some(&0));
    assert_eq!(a.int_keys.len(), 52);
    assert_eq!(a.xyz_keys.len(), 2);
    let right = a.xyz_keys.get("rightEye").unwrap();
    assert_eq!(floats(right), [6.0297494, 2.4403017, 0.25649446]);
    let head = a.coord_keys.get("=head").unwrap();
    assert_eq!(floats(&head.0), [-21.488958, -6.038993, -6.6019735]);
    assert_eq!(floats(&head.1), [-0.030653415, -0.10287084, -0.6584072]);
}

#[test]
fn invalid_sample_fails_strictly() {
    assert_eq!(Value::parse_str(INVALID_DATA).err(), Some(ParseError::InvalidValue));
}

#[test]
fn three_kinds_of_entry() {
    let a = Value::parse_str("a-5|b#1.0,2.0,3.0|c#1,2,3,4,5,6|").unwrap();
    assert_eq!(a.int_keys.get("a"), Some(&5));
    assert_eq!(a.int_keys.len(), 1);
    assert_eq!(a.xyz_keys.len(), 1);
    assert_eq!(floats(a.xyz_keys.get("b").unwrap()), [1.0, 2.0, 3.0]);
    assert_eq!(a.coord_keys.len(), 1);
    let c = a.coord_keys.get("c").unwrap();
    assert_eq!(floats(&c.0), [1.0, 2.0, 3.0]);
    assert_eq!(floats(&c.1), [4.0, 5.0, 6.0]);
}

#[test]
fn not_a_number_strict_and_lossy() {
    assert_eq!(Value::parse_str("x-notanumber|").err(), Some(ParseError::InvalidValue));
    let a = Value::parse_str_lossy("x-notanumber|").unwrap();
    assert_eq!(a.int_keys.get("x"), Some(&0));
    assert_eq!(a.int_keys.len(), 1);
}

#[test]
fn non_numeric_payload_fails_strictly() {
    assert_eq!(Value::parse_str("jawOpen-abc").err(), Some(ParseError::InvalidValue));
    let a = Value::parse_str_lossy("jawOpen-abc").unwrap();
    assert_eq!(a.int_keys.get("jawOpen"), Some(&0));
}

#[test]
fn other_counts_are_dropped() {
    for input in ["weird#1,2", "weird#1,2,3,4", "weird#1,2,3,4,5", "weird#1,2,3,4,5,6,7"] {
        for a in [Value::parse_str(input).unwrap(), Value::parse_str_lossy(input).unwrap()] {
            assert_eq!(a.int_keys.len(), 0);
            assert_eq!(a.xyz_keys.len(), 0);
            assert_eq!(a.coord_keys.len(), 0);
        }
    }
}

#[test]
fn empty_name_leaves_only_the_integers() {
    for a in [Value::parse_str("-5|#1,2,3|").unwrap(), Value::parse_str_lossy("-5|#1,2,3|").unwrap()] {
        assert_eq!(a.int_keys.get(""), None);
        assert_eq!(a.int_keys.len(), 0);
        assert_eq!(floats(a.xyz_keys.get("").unwrap()), [1.0, 2.0, 3.0]);
    }
}

#[test]
fn empty_input_gives_empty_record() {
    let a = Value::parse_str("").unwrap();
    assert_eq!(a.int_keys.len(), 0);
    assert_eq!(a.xyz_keys.len(), 0);
    assert_eq!(a.coord_keys.len(), 0);
    let b = Value::parse_str("||?|").unwrap();
    assert_eq!(b.int_keys.len(), 0);
}

#[test]
fn question_mark_separates_entries() {
    let a = Value::parse_str("a-1?b-2").unwrap();
    assert_eq!(a.int_keys.get("a"), Some(&1));
    assert_eq!(a.int_keys.get("b"), Some(&2));
}

#[test]
fn last_duplicate_wins() {
    let a = Value::parse_str("a-1|a-2|a#7").unwrap();
    assert_eq!(a.int_keys.get("a"), Some(&7));
    assert_eq!(a.int_keys.len(), 1);
}

#[test]
fn same_name_in_two_tables() {
    let a = Value::parse_str("a-1|a#1,2,3").unwrap();
    assert_eq!(a.int_keys.get("a"), Some(&1));
    assert_eq!(floats(a.xyz_keys.get("a").unwrap()), [1.0, 2.0, 3.0]);
}

#[test]
fn scalar_split_at_first_dash() {
    let a = Value::parse_str("jawLeft--5|b-+42").unwrap();
    assert_eq!(a.int_keys.get("jawLeft"), Some(&-5));
    assert_eq!(a.int_keys.get("b"), Some(&42));
}

#[test]
fn entry_without_separator_is_named_by_its_text() {
    let a = Value::parse_str("3|abc").unwrap();
    assert_eq!(a.int_keys.get("3"), Some(&0));
    assert_eq!(a.int_keys.get("abc"), Some(&0));
}

#[test]
fn integer_out_of_range() {
    let a = Value::parse_str("a-2147483647|b--2147483648").unwrap();
    assert_eq!(a.int_keys.get("a"), Some(&2147483647));
    assert_eq!(a.int_keys.get("b"), Some(&-2147483648));
    assert_eq!(Value::parse_str("a-2147483648").err(), Some(ParseError::InvalidValue));
    let b = Value::parse_str_lossy("a-2147483648").unwrap();
    assert_eq!(b.int_keys.get("a"), Some(&0));
}

#[test]
fn float_literal_forms() {
    let a = Value::parse_str("v#inf,-NaN,+1e5|w#.5,1.,2E-3|").unwrap();
    let v = a.xyz_keys.get("v").unwrap();
    let f = floats(v);
    assert!(f[0].is_infinite() && f[1].is_nan() && f[2] == 1e5);
    assert_eq!(floats(a.xyz_keys.get("w").unwrap()), [0.5, 1.0, 0.002]);
    for bad in ["v#1.2.3,0,0", "v#.,0,0", "v#1e,0,0", "v#,0,0", "v# 1,0,0"] {
        assert_eq!(Value::parse_str(bad).err(), Some(ParseError::InvalidValue));
        let b = Value::parse_str_lossy(bad).unwrap();
        assert_eq!(floats(b.xyz_keys.get("v").unwrap()), [0.0, 0.0, 0.0]);
    }
}

#[test]
fn lossy_coordinate_keeps_valid_components() {
    let a = Value::parse_str_lossy("c#1,x,3,4,5,y").unwrap();
    let c = a.coord_keys.get("c").unwrap();
    assert_eq!(floats(&c.0), [1.0, 0.0, 3.0]);
    assert_eq!(floats(&c.1), [4.0, 5.0, 0.0]);
    assert_eq!(Value::parse_str("c#1,x,3,4,5,y").err(), Some(ParseError::InvalidValue));
}

#[test]
fn error_message() {
    assert_eq!(ParseError::InvalidValue.message(), "Invalid value string");
}

#[test]
fn written_record_reads_back() {
    let input = "a-5|neg--7|b#1.0,-2.5,inf|c#1,2,3,4,5,6|#0,0,0|q?";
    let a = Value::parse_str(input).unwrap();
    let text = a.to_entries_string();
    let b = Value::parse_str(&text).unwrap();
    assert_eq!(b.int_keys.len(), a.int_keys.len());
    assert_eq!(b.int_keys.get("a"), Some(&5));
    assert_eq!(b.int_keys.get("neg"), Some(&-7));
    assert_eq!(b.int_keys.get("q"), Some(&0));
    assert_eq!(b.xyz_keys.get("b"), a.xyz_keys.get("b"));
    assert_eq!(b.xyz_keys.get(""), a.xyz_keys.get(""));
    assert_eq!(b.coord_keys.get("c"), a.coord_keys.get("c"));
    assert_eq!(b.to_entries_string(), text);
}

#[test]
fn written_text_has_one_entry_per_name() {
    let a = Value::parse_str("a-5|a-6|b#1,2,3|c#1,2,3,4,5,6").unwrap();
    assert_eq!(a.to_entries_string(), "a-6|b#1,2,3|c#1,2,3,4,5,6|");
    let lossy = Value::parse_str_lossy("x-nope|y#1,z,3").unwrap();
    assert_eq!(lossy.to_entries_string(), "x-0|y#1,0,3|");
    let empty = Value::parse_str("").unwrap();
    assert_eq!(empty.to_entries_string(), "");
}

#[test]
fn negative_integer_written_in_decimal() {
    let a = Value::parse_str("m--2147483648|p-0042").unwrap();
    assert_eq!(a.to_entries_string(), "m--2147483648|p-42|");
}
