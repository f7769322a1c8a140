use alure_module::call_table::{CallTable, LibSite};
use alure_module::error::ModuleError;
use alure_module::libid::LibId;
use alure_module::module::Module;
use alure_module::value::{DataType, IntLayout, Variable};

fn lib(b: u8) -> LibId {
    let mut a = [0u8; 32];
    a[0] = b;
    LibId(a)
}

fn sample() -> Module {
    let mut imports = CallTable::new();
    imports.find_or_insert(lib(2), "init").unwrap();
    imports.find_or_insert(lib(2), "run").unwrap();
    imports.find_or_insert(lib(1), "main").unwrap();
    imports.get_mut(LibSite { lib: lib(2), pos: 1 }, 12).unwrap();
    imports.get_mut(LibSite { lib: lib(2), pos: 1 }, 4).unwrap();
    Module {
        isae: "ALU".to_string(),
        code: vec![1, 2, 3, 4, 5],
        data: vec![9; 300],
        libs: vec![lib(1), lib(2)],
        vars: vec![
            Variable { info: "bytes".to_string(), data: DataType::ByteStr(Some(vec![7, 8])) },
            Variable { info: "nodefault".to_string(), data: DataType::ByteStr(None) },
            Variable {
                info: "counter".to_string(),
                data: DataType::Int(IntLayout { signed: true, bytes: 4 }, Some(vec![1, 0, 0, 0])),
            },
            Variable {
                info: "u16".to_string(),
                data: DataType::Int(IntLayout { signed: false, bytes: 2 }, None),
            },
            Variable { info: "f32".to_string(), data: DataType::Float(4, Some(vec![0, 0, 128, 63])) },
        ],
        imports,
        exports: vec![("entry".to_string(), 0), ("helper".to_string(), 17)],
    }
}

#[test]
fn module_round_trip() {
    let m = sample();
    let bytes = m.encode().unwrap();
    let d = Module::decode(&bytes).unwrap();
    assert_eq!(d.isae, m.isae);
    assert_eq!(d.code, m.code);
    assert_eq!(d.data, m.data);
    assert_eq!(d.libs, m.libs);
    assert_eq!(d.vars, m.vars);
    assert_eq!(d.imports, m.imports);
    assert_eq!(d.exports, m.exports);
    assert_eq!(d.encode().unwrap(), bytes);
}

#[test]
fn module_encoding_layout() {
    let m = Module {
        isae: "A".to_string(),
        code: vec![0xAA],
        data: vec![],
        libs: vec![],
        vars: vec![],
        imports: CallTable::new(),
        exports: vec![],
    };
    assert_eq!(m.encode().unwrap(), vec![1, b'A', 1, 0, 0xAA, 0, 0, 0, 0, 0, 0, 0, 0]);
}

#[test]
fn truncated_code_rejected() {
    let mut m = sample();
    m.code = vec![0x55; 100];
    let bytes = m.encode().unwrap();
    // ISA extensions take 4 bytes, the code length 2: cut the code at 50 bytes.
    let cut = &bytes[..4 + 2 + 50];
    assert!(matches!(Module::decode(cut), Err(ModuleError::Io)));
    for len in 0..bytes.len() {
        assert!(Module::decode(&bytes[..len]).is_err());
    }
    assert!(matches!(Module::decode(&[]), Err(ModuleError::Io)));
}

#[test]
fn variable_layout_mismatch() {
    // description "v", unsigned integer of 4 bytes, default of 2 bytes
    let bytes = vec![1, b'v', 0, 4, 0, 1, 2, 0, 0xAB, 0xCD];
    match Variable::decode(&bytes, 0) {
        Err(ModuleError::VarWrongLayout { layout_bytes, data_bytes, info }) => {
            assert_eq!(layout_bytes, 4);
            assert_eq!(data_bytes, 2);
            assert_eq!(info, "v");
        }
        other => panic!("unexpected {:?}", other),
    }
}

#[test]
fn truncated_code_example() {
    // empty ISA extensions, declared code length 100, only 50 bytes
    let mut bytes = vec![0x00, 0x64, 0x00];
    bytes.extend_from_slice(&[0u8; 50]);
    assert_eq!(Module::decode(&bytes).map(|m| m.code.len()), Err(ModuleError::Io));
}

#[test]
fn float_layout_width_checked() {
    // float layout 5 is 8 bytes wide
    let good = vec![1, b'd', 5, 1, 8, 0, 1, 2, 3, 4, 5, 6, 7, 8];
    let (v, p) = Variable::decode(&good, 0).unwrap();
    assert_eq!(p, good.len());
    assert_eq!(v.data, DataType::Float(5, Some(vec![1, 2, 3, 4, 5, 6, 7, 8])));
    let bad = vec![1, b'd', 5, 1, 4, 0, 1, 2, 3, 4];
    assert!(matches!(
        Variable::decode(&bad, 0),
        Err(ModuleError::VarWrongLayout { layout_bytes: 8, data_bytes: 4, .. })
    ));
}

#[test]
fn unknown_float_layout() {
    let bytes = vec![1, b'x', 0x10, 0];
    match Variable::decode(&bytes, 0) {
        Err(ModuleError::VarWrongFloatType(tag, info)) => {
            assert_eq!(tag, 0x10);
            assert_eq!(info, "x");
        }
        other => panic!("unexpected {:?}", other),
    }
}

#[test]
fn wrong_default_flag() {
    let bytes = vec![1, b'x', 1, 2, 0, 7];
    assert!(matches!(Variable::decode(&bytes, 0), Err(ModuleError::VarWrongDefaultFlag(7, _))));
}

#[test]
fn non_utf8_description() {
    let bytes = vec![1, 0xFF, 0xFF, 0, 0];
    assert!(matches!(Variable::decode(&bytes, 0), Err(ModuleError::VarNonUtf8(b)) if b == vec![0xFF]));
}

#[test]
fn empty_byte_string_means_no_default() {
    let bytes = vec![0, 0xFF, 0, 0];
    let (v, _) = Variable::decode(&bytes, 0).unwrap();
    assert_eq!(v.data, DataType::ByteStr(None));
    let mut out = Vec::new();
    assert!(v.encode(&mut out));
    assert_eq!(out, bytes);
}

#[test]
fn unordered_imports_rejected() {
    let mut bytes = vec![0, 0, 0, 0, 0, 0];
    // two libraries, the second not greater than the first
    bytes.push(2);
    for _ in 0..2 {
        bytes.extend_from_slice(&[5u8; 32]);
        bytes.extend_from_slice(&[0, 0]);
    }
    bytes.extend_from_slice(&[0, 0, 0, 0]);
    assert!(matches!(Module::decode(&bytes), Err(ModuleError::ImportsUnordered)));
}

#[test]
fn duplicate_routine_rejected() {
    let mut bytes = vec![0, 0, 0, 0, 0, 0];
    bytes.push(1);
    bytes.extend_from_slice(&[5u8; 32]);
    bytes.extend_from_slice(&[2, 0]);
    for _ in 0..2 {
        bytes.extend_from_slice(&[1, b'f', 0, 0]);
    }
    bytes.extend_from_slice(&[0, 0, 0, 0]);
    assert!(matches!(Module::decode(&bytes), Err(ModuleError::ImportsUnordered)));
}

#[test]
fn non_utf8_routine_and_export() {
    let mut bytes = vec![0, 0, 0, 0, 0, 0, 1];
    bytes.extend_from_slice(&[5u8; 32]);
    bytes.extend_from_slice(&[1, 0, 1, 0xC0, 0, 0]);
    bytes.extend_from_slice(&[0, 0, 0, 0]);
    assert!(matches!(Module::decode(&bytes), Err(ModuleError::RoutineNonUtf8(_))));
    let exports = vec![0, 0, 0, 0, 0, 0, 0, 1, 0, 1, 0xC0, 0, 0, 0, 0];
    assert!(matches!(Module::decode(&exports), Err(ModuleError::ExternalNonUtf8(_))));
}

#[test]
fn oversized_field_not_encoded() {
    let mut m = sample();
    m.code = vec![0; 65536];
    assert_eq!(m.encode(), Err(ModuleError::FieldLengthExceeded));
    let mut m = sample();
    m.isae = "x".repeat(256);
    assert_eq!(m.encode(), Err(ModuleError::IsaeLengthLimExceeded(256)));
    let mut m = sample();
    m.libs = (0..=255u8).map(lib).collect();
    assert_eq!(m.encode(), Err(ModuleError::LibCountLimExceeded));
}

#[test]
fn unordered_libraries_rejected() {
    let mut m = sample();
    m.libs = vec![lib(2), lib(1)];
    assert_eq!(m.encode(), Err(ModuleError::LibsUnordered));
    m.libs = vec![lib(1), lib(1)];
    assert_eq!(m.encode(), Err(ModuleError::LibsUnordered));
    // isae, code, data empty; two equal library identifiers
    let mut bytes = vec![0, 0, 0, 0, 0, 2];
    bytes.extend_from_slice(&[3u8; 32]);
    bytes.extend_from_slice(&[3u8; 32]);
    bytes.extend_from_slice(&[0, 0, 0, 0, 0]);
    assert!(matches!(Module::decode(&bytes), Err(ModuleError::LibsUnordered)));
}

#[test]
fn unordered_exports_rejected() {
    let mut m = sample();
    m.exports = vec![("b".to_string(), 1), ("a".to_string(), 2)];
    assert_eq!(m.encode(), Err(ModuleError::ExportsUnordered));
    m.exports = vec![("a".to_string(), 1), ("a".to_string(), 2)];
    assert_eq!(m.encode(), Err(ModuleError::ExportsUnordered));
    let bytes = vec![0, 0, 0, 0, 0, 0, 0, 2, 0, 1, b'b', 1, 0, 1, b'a', 2, 0, 0, 0];
    assert!(matches!(Module::decode(&bytes), Err(ModuleError::ExportsUnordered)));
    let ok = vec![0, 0, 0, 0, 0, 0, 0, 2, 0, 1, b'a', 1, 0, 2, b'a', b'b', 2, 0, 0, 0];
    let d = Module::decode(&ok).unwrap();
    assert_eq!(d.exports, vec![("a".to_string(), 1), ("ab".to_string(), 2)]);
}

#[test]
fn float_default_width_mismatch_and_bad_flag() {
    // float layout 4 is 4 bytes wide; default of 3 bytes
    let bytes = vec![1, b'f', 4, 1, 3, 0, 1, 2, 3];
    assert!(matches!(
        Variable::decode(&bytes, 0),
        Err(ModuleError::VarWrongLayout { layout_bytes: 4, data_bytes: 3, .. })
    ));
    let flag = vec![1, b'f', 4, 9];
    assert!(matches!(Variable::decode(&flag, 0), Err(ModuleError::VarWrongDefaultFlag(9, _))));
}
