use disasm::control_flow_graph::FunctionId;
use disasm::symbol_file::{parse_type, parse_versionable_memory_kind, SymbolRenamingLine};
use disasm::symbol_renaming::{
    CustomTypeId, FunctionSymbol, PointerId, StructDef, StructField, SymbolRenaming, UserDefs,
    VersionableMemoryKind, VersionedMemoryReference,
};
use disasm::value_types::Type;

fn lookup<'a, K: PartialEq, V>(entries: &'a [(K, V)], key: &K) -> Option<&'a V> {
    entries.iter().find(|(k, _)| k == key).map(|(_, v)| v)
}

#[test]
fn test_parse_function_line() {
    let input = "F 1234 function_name";
    let result = SymbolRenamingLine::parse(input);
    assert!(result.is_ok());
    let (_, line) = result.unwrap();
    match line {
        SymbolRenamingLine::Function(fid, name, _) => {
            assert_eq!(fid, FunctionId::new(1234));
            assert_eq!(name, "function_name");
        }
        _ => panic!("Expected a function line"),
    }
}
#[test]
fn test_parse_variable_line() {
    let input = "V 5678 [R-4]_2 variable_name";
    let result = SymbolRenamingLine::parse(input);
    assert!(result.is_ok());
    let (_, line) = result.unwrap();
    match line {
        SymbolRenamingLine::Variable(vmr, name, type_opt) => {
            assert_eq!(vmr.function_id, FunctionId::new(5678));
            assert_eq!(vmr.kind, VersionableMemoryKind::RelativeMemory(-4));
            assert_eq!(vmr.version, 2);
            assert_eq!(name, "variable_name");
            assert_eq!(type_opt, None);
        }
        _ => panic!("Expected Variable line, got {:?}", line),
    }
}

#[test]
fn test_parse_global_line_with_array_of_ints() {
    let input = "G 42 global_array Array<10; Int>";
    let expected_name = "global_array".to_string();
    // Parse the input
    let result = SymbolRenamingLine::parse(input);
    assert!(result.is_ok());

    // Check the parsed line
    let (_, line) = result.unwrap();
    match line {
        SymbolRenamingLine::Global(42, name, Some(type_expr)) => {
            assert_eq!(name, expected_name);
            // Assert the type expression
            assert_eq!(type_expr, "Array<10; Int>"); // Make sure type_expr is comparable directly.
        }
        _ => panic!("Unexpected enum variant"),
    }
}

#[test]
fn test_parse_function_line_with_empty_args() {
    let input = "F 1234 function_name()";
    let result = SymbolRenamingLine::parse(input);
    assert!(result.is_ok());
    let (_, line) = result.unwrap();
    match line {
        SymbolRenamingLine::Function(fid, name, args) => {
            assert_eq!(fid, FunctionId::new(1234));
            assert_eq!(name, "function_name");
            assert_eq!(args, Vec::<(String, Option<String>)>::new());
        }
        _ => panic!("Expected a function line"),
    }
}

#[test]
fn test_parse_function_line_with_one_arg() {
    let input = "F 1234 function_name(arg1)";
    let result = SymbolRenamingLine::parse(input);
    assert!(result.is_ok());
    let (_, line) = result.unwrap();
    match line {
        SymbolRenamingLine::Function(fid, name, args) => {
            assert_eq!(fid, FunctionId::new(1234));
            assert_eq!(name, "function_name");
            assert_eq!(args, vec![("arg1".to_string(), None)]);
        }
        _ => panic!("Expected a function line"),
    }
}

#[test]
fn test_parse_function_line_with_multiple_args() {
    let input = "F 1234 function_name(arg1,arg2, arg3)";
    let result = SymbolRenamingLine::parse(input);
    assert!(result.is_ok());
    let (_, line) = result.unwrap();
    match line {
        SymbolRenamingLine::Function(fid, name, args) => {
            assert_eq!(fid, FunctionId::new(1234));
            assert_eq!(name, "function_name");
            assert_eq!(
                args,
                vec![
                    ("arg1".to_string(), None),
                    ("arg2".to_string(), None),
                    ("arg3".to_string(), None)
                ]
            );
        }
        _ => panic!("Expected a function line"),
    }
}

#[test]
fn test_parse_variable_line_with_memory() {
    let input = "V 5678 [100]_2 variable_name";
    let result = SymbolRenamingLine::parse(input);
    assert!(result.is_ok());
    let (_, line) = result.unwrap();
    match line {
        SymbolRenamingLine::Variable(vmr, name, type_opt) => {
            assert_eq!(vmr.function_id, FunctionId::new(5678));
            assert_eq!(vmr.kind, VersionableMemoryKind::Memory(100));
            assert_eq!(vmr.version, 2);
            assert_eq!(name, "variable_name");
            assert_eq!(type_opt, None);
        }
        _ => panic!("Expected a variable line"),
    }
}

#[test]
fn test_parse_variable_line_with_pointer() {
    let input = "V 5678 [P10]_2 variable_name";
    let result = SymbolRenamingLine::parse(input);
    assert!(result.is_ok());
    let (_, line) = result.unwrap();
    match line {
        SymbolRenamingLine::Variable(vmr, name, type_opt) => {
            assert_eq!(vmr.function_id, FunctionId::new(5678));
            assert_eq!(vmr.kind, VersionableMemoryKind::Pointer(PointerId::new(10)));
            assert_eq!(vmr.version, 2);
            assert_eq!(name, "variable_name");
            assert_eq!(type_opt, None);
        }
        _ => panic!("Expected a variable line"),
    }
}
#[test]
fn test_parse_variable_line_with_type() {
    let input = "V 5678 [P10]_2 variable_name Int";
    let result = SymbolRenamingLine::parse(input);
    assert!(result.is_ok());
    let (_, line) = result.unwrap();
    match line {
        SymbolRenamingLine::Variable(vmr, name, type_opt) => {
            assert_eq!(vmr.function_id, FunctionId::new(5678));
            assert_eq!(vmr.kind, VersionableMemoryKind::Pointer(PointerId::new(10)));
            assert_eq!(vmr.version, 2);
            assert_eq!(name, "variable_name");
            assert_eq!(type_opt, Some("Int".to_string()));
        }
        _ => panic!("Expected a variable line"),
    }
}

#[test]
fn test_parse_relative_memory_kind_positive_offset() {
    let input = "[R+123]";
    let result = parse_versionable_memory_kind(input);
    assert!(result.is_ok());
    let (_, kind) = result.unwrap();
    assert_eq!(kind, VersionableMemoryKind::RelativeMemory(123));
}

#[test]
fn test_parse_relative_memory_kind_negative_offset() {
    let input = "[R-456]";
    let result = parse_versionable_memory_kind(input);
    assert!(result.is_ok());
    let (_, kind) = result.unwrap();
    assert_eq!(kind, VersionableMemoryKind::RelativeMemory(-456));
}

#[test]
fn test_parse_relative_memory_kind_no_offset() {
    let input = "[R]";
    let result = parse_versionable_memory_kind(input);
    assert!(result.is_ok());
    let (_, kind) = result.unwrap();
    assert_eq!(kind, VersionableMemoryKind::RelativeMemory(0));
}
#[test]
fn test_from_lines_empty() {
    let input = "";
    let result = UserDefs::from_lines(input);
    assert!(result.is_ok());
    let user_defs = result.unwrap();
    assert!(user_defs.get_functions().is_empty());
    assert!(user_defs.get_variables().is_empty());
}

#[test]
fn test_from_lines_comments_and_empty_lines() {
    let input = "# This is a comment\n\nF 1234 function_name\n# Another comment\n";
    let result = UserDefs::from_lines(input);
    assert!(result.is_ok());
    let user_defs = result.unwrap();
    assert_eq!(user_defs.get_functions().len(), 1);
    assert_eq!(
        lookup(user_defs.get_functions(), &FunctionId::new(1234)),
        Some(&FunctionSymbol::new("function_name".to_string(), vec![]))
    );
    assert!(user_defs.get_variables().is_empty());
}

#[test]
fn test_from_lines_mixed() {
    let input = "F 1234 function_name\nV 5678 [R-4]_2 variable_name";
    let result = UserDefs::from_lines(input);
    assert!(result.is_ok());
    let user_defs = result.unwrap();
    assert_eq!(user_defs.get_functions().len(), 1);
    assert_eq!(
        lookup(user_defs.get_functions(), &FunctionId::new(1234)),
        Some(&FunctionSymbol::new("function_name".to_string(), vec![]))
    );
    assert_eq!(user_defs.get_variables().len(), 1);
    let vmr = VersionedMemoryReference {
        kind: VersionableMemoryKind::RelativeMemory(-4),
        function_id: FunctionId::new(5678),
        version: 2,
    };
    assert_eq!(
        lookup(user_defs.get_variables(), &vmr),
        Some(&("variable_name".to_string(), None))
    );
}

#[test]
fn test_from_lines_invalid_line() {
    let input = "X 1234 function_name";
    let result = UserDefs::from_lines(input);
    assert!(result.is_err());
    assert!(result
        .unwrap_err()
        .contains("Failed to parse line: X 1234 function_name"));
}
#[test]
fn test_parse_custom_type_line() {
    let input = "T MyCustomType";
    let result = SymbolRenamingLine::parse(input);
    assert!(result.is_ok());
    let (_, line) = result.unwrap();
    match line {
        SymbolRenamingLine::CustomType(name) => {
            assert_eq!(name, "MyCustomType");
        }
        _ => panic!("Expected a custom type line"),
    }
}

#[test]
fn test_parse_global_line() {
    let line = "G 576 MyGlobal";
    let result = SymbolRenamingLine::parse(line);
    assert!(result.is_ok(), "Parsing failed: {:?}", result.err());
    let (_, parsed_line) = result.unwrap();
    assert_eq!(
        parsed_line,
        SymbolRenamingLine::Global(576, "MyGlobal".to_string(), None)
    );
}

#[test]
fn test_parse_global_line_with_type() {
    let line = "G 576 MyGlobal Int";
    let result = SymbolRenamingLine::parse(line);
    assert!(result.is_ok(), "Parsing failed: {:?}", result.err());
    let (_, parsed_line) = result.unwrap();
    assert_eq!(
        parsed_line,
        SymbolRenamingLine::Global(576, "MyGlobal".to_string(), Some("Int".to_string()))
    );
}

#[test]
fn test_from_lines_with_custom_type() {
    let input = "T MyCustomType";
    let result = UserDefs::from_lines(input);
    assert!(result.is_ok());
    let user_defs = result.unwrap();
    assert_eq!(user_defs.get_custom_types().len(), 1);
    assert_eq!(
        &user_defs.get_custom_types()[0].1,
        &"MyCustomType".to_string()
    );
}

#[test]
fn test_from_lines_with_global() {
    let input = "G 576 MyGlobal Int";
    let result = UserDefs::from_lines(input);
    assert!(result.is_ok(), "from_lines failed: {:?}", result.err());
    let user_defs = result.unwrap();
    assert_eq!(user_defs.get_globals().len(), 1);
    assert_eq!(
        lookup(user_defs.get_globals(), &576),
        Some(&("MyGlobal".to_string(), Some(Type::Int)))
    );
}

#[test]
fn test_from_lines_with_global_no_type() {
    let input = "G 1024 AnotherGlobal";
    let result = UserDefs::from_lines(input);
    assert!(result.is_ok(), "from_lines failed: {:?}", result.err());
    let user_defs = result.unwrap();
    assert_eq!(user_defs.get_globals().len(), 1);
    assert_eq!(
        lookup(user_defs.get_globals(), &1024),
        Some(&("AnotherGlobal".to_string(), None))
    );
}

#[test]
fn test_parse_struct_line() {
    let line = "S MyStruct { field1: Int }";
    let result = SymbolRenamingLine::parse(line);
    assert!(result.is_ok(), "Parsing failed: {:?}", result.err());
    let (_, parsed_line) = result.unwrap();
    assert_eq!(
        parsed_line,
        SymbolRenamingLine::Struct(
            "MyStruct".to_string(),
            vec![("field1".to_string(), Some("Int".to_string()))]
        )
    );
}

#[test]
fn test_parse_struct_line_with_multiple_fields() {
    let line = "S GameThing { a: Int, b: Pointer<Int>, c: CustomType1 }";
    let result = SymbolRenamingLine::parse(line);
    assert!(result.is_ok(), "Parsing failed: {:?}", result.err());
    let (_, parsed_line) = result.unwrap();
    assert_eq!(
        parsed_line,
        SymbolRenamingLine::Struct(
            "GameThing".to_string(),
            vec![
                ("a".to_string(), Some("Int".to_string())),
                ("b".to_string(), Some("Pointer<Int>".to_string())),
                ("c".to_string(), Some("CustomType1".to_string()))
            ]
        )
    );
}

#[test]
fn test_parse_struct_line_no_fields() {
    let line = "S EmptyStruct { }";
    let result = SymbolRenamingLine::parse(line);
    assert!(result.is_ok(), "Parsing failed: {:?}", result.err());
    let (_, parsed_line) = result.unwrap();
    assert_eq!(
        parsed_line,
        SymbolRenamingLine::Struct("EmptyStruct".to_string(), vec![])
    );
}

#[test]
fn test_from_lines_with_struct() {
    let input = "S MyStruct { x: Int, y: Bool }";
    let result = UserDefs::from_lines(input);
    assert!(result.is_ok(), "from_lines failed: {:?}", result.err());
    let user_defs = result.unwrap();
    assert_eq!(user_defs.get_structs().len(), 1);
    let expected_struct_def = StructDef {
        name: "MyStruct".to_string(),
        fields: vec![
            StructField {
                name: "x".to_string(),
                typ: Some(Type::Int),
            },
            StructField {
                name: "y".to_string(),
                typ: Some(Type::Bool),
            },
        ],
    };
    assert_eq!(
        user_defs.struct_by_name("MyStruct").map(|v| v.1),
        Some(&expected_struct_def)
    );
}

#[test]
fn test_from_lines_with_struct_empty_fields() {
    let input = "S EmptyStruct { }";
    let result = UserDefs::from_lines(input);
    assert!(result.is_ok(), "from_lines failed: {:?}", result.err());
    let user_defs = result.unwrap();
    assert_eq!(user_defs.get_structs().len(), 1);
    let expected_struct_def = StructDef {
        name: "EmptyStruct".to_string(),
        fields: vec![],
    };
    assert_eq!(
        user_defs.struct_by_name("EmptyStruct").map(|v| v.1),
        Some(&expected_struct_def)
    );
}

#[test]
fn test_from_lines_with_struct_and_custom_type_field() {
    let input = "T MyCustom\nS DataStruct { val: MyCustom, count: Int }";
    let result = UserDefs::from_lines(input);
    assert!(result.is_ok(), "from_lines failed: {:?}", result.err());
    let user_defs = result.unwrap();

    assert_eq!(user_defs.get_custom_types().len(), 1);
    let custom_type_id_entry = user_defs
        .get_custom_types()
        .iter()
        .find(|(_, name)| name == "MyCustom");
    assert!(custom_type_id_entry.is_some());
    let (custom_type_id, _) = custom_type_id_entry.unwrap();

    assert_eq!(user_defs.get_structs().len(), 1);
    let expected_struct_def = StructDef {
        name: "DataStruct".to_string(),
        fields: vec![
            StructField {
                name: "val".to_string(),
                typ: Some(Type::CustomType(*custom_type_id)),
            },
            StructField {
                name: "count".to_string(),
                typ: Some(Type::Int),
            },
        ],
    };
    assert_eq!(
        user_defs.struct_by_name("DataStruct").map(|v| v.1),
        Some(&expected_struct_def)
    );
}

#[test]
fn test_get_function_name() {
    let mut symbol_renaming = SymbolRenaming::new();
    let function_id = FunctionId::new(1234);
    symbol_renaming.add_function(function_id, "function_name".to_string(), vec![]);
    let name = symbol_renaming.user_defs.get_function_name(function_id);
    assert_eq!(name, Some(&"function_name".to_string()));
}

#[test]
fn test_get_function_args() {
    let mut symbol_renaming = SymbolRenaming::new();
    let function_id = FunctionId::new(1234);
    symbol_renaming.add_function(
        function_id,
        "function_name".to_string(),
        vec![("arg1".to_string(), None), ("arg2".to_string(), None)],
    );
    let args = symbol_renaming.user_defs.get_function_args(function_id);
    assert_eq!(
        args,
        Some(&vec![
            ("arg1".to_string(), None),
            ("arg2".to_string(), None)
        ])
    );
}

#[test]
fn test_get_variable_name() {
    let mut symbol_renaming = SymbolRenaming::new();
    let variable = VersionedMemoryReference {
        kind: VersionableMemoryKind::Memory(100),
        function_id: FunctionId::new(5678),
        version: 2,
    };
    symbol_renaming.add_variable_name(&variable, "variable_name".to_string(), None);
    let name = symbol_renaming.user_defs.get_variable_name(&variable);
    assert_eq!(name, Some(&"variable_name".to_string()));
}
#[test]
fn test_from_lines_function_with_args_and_types() {
    let input = "T MyCustomType\nF 1234 function_name(arg1:Int, arg2:MyCustomType)";
    let result = UserDefs::from_lines(input);
    assert!(result.is_ok());
    let user_defs = result.unwrap();
    assert_eq!(user_defs.get_functions().len(), 1);
    let function_id = FunctionId::new(1234);
    let custom_type_id = user_defs.get_custom_types()[0].0;
    let expected_function_symbol = FunctionSymbol::new(
        "function_name".to_string(),
        vec![
            ("arg1".to_string(), Some(Type::Int)),
            ("arg2".to_string(), Some(Type::CustomType(custom_type_id))),
        ],
    );

    assert_eq!(
        lookup(user_defs.get_functions(), &function_id),
        Some(&expected_function_symbol)
    );
}

#[test]
fn test_from_lines_variable_with_type() {
    let input = "T MyCustomType\nV 5678 [R-4]_2 variable_name Int";
    let result = UserDefs::from_lines(input);
    assert!(result.is_ok());
    let user_defs = result.unwrap();
    assert_eq!(user_defs.get_variables().len(), 1);
    let vmr = VersionedMemoryReference {
        kind: VersionableMemoryKind::RelativeMemory(-4),
        function_id: FunctionId::new(5678),
        version: 2,
    };
    assert_eq!(
        lookup(user_defs.get_variables(), &vmr),
        Some(&("variable_name".to_string(), Some(Type::Int)))
    );
}

#[test]
fn test_from_lines_variable_with_custom_type() {
    let input = "T MyCustomType\nV 5678 [R-4]_2 variable_name MyCustomType";
    let result = UserDefs::from_lines(input);
    assert!(result.is_ok());
    let user_defs = result.unwrap();
    assert_eq!(user_defs.get_variables().len(), 1);
    let vmr = VersionedMemoryReference {
        kind: VersionableMemoryKind::RelativeMemory(-4),
        function_id: FunctionId::new(5678),
        version: 2,
    };
    assert_eq!(
        lookup(user_defs.get_variables(), &vmr).unwrap().0,
        "variable_name"
    );

    let expected_type = Type::CustomType(
        user_defs.get_custom_types()[0].0,
    );
    assert_eq!(
        lookup(user_defs.get_variables(), &vmr).unwrap().1,
        Some(expected_type)
    );
}
#[test]
fn test_from_lines_variable_with_pointer_type() {
    let input = "V 5678 [R-4]_2 variable_name Pointer<Int>";
    let result = UserDefs::from_lines(input);
    assert!(result.is_ok());
    let user_defs = result.unwrap();
    assert_eq!(user_defs.get_variables().len(), 1);
    let vmr = VersionedMemoryReference {
        kind: VersionableMemoryKind::RelativeMemory(-4),
        function_id: FunctionId::new(5678),
        version: 2,
    };
    assert_eq!(
        lookup(user_defs.get_variables(), &vmr).unwrap().0,
        "variable_name"
    );

    let expected_type = Type::Pointer(Box::new(Type::Int));
    assert_eq!(
        lookup(user_defs.get_variables(), &vmr).unwrap().1,
        Some(expected_type)
    );
}

#[test]
fn test_from_lines_variable_with_pointer_to_custom_type() {
    let input = "T MyCustomType\nV 5678 [R-4]_2 variable_name Pointer<MyCustomType>";
    let result = UserDefs::from_lines(input);
    assert!(result.is_ok());
    let user_defs = result.unwrap();
    assert_eq!(user_defs.get_variables().len(), 1);
    let vmr = VersionedMemoryReference {
        kind: VersionableMemoryKind::RelativeMemory(-4),
        function_id: FunctionId::new(5678),
        version: 2,
    };
    assert_eq!(
        lookup(user_defs.get_variables(), &vmr).unwrap().0,
        "variable_name"
    );

    let expected_type = Type::Pointer(Box::new(Type::CustomType(
        user_defs.get_custom_types()[0].0,
    )));
    assert_eq!(
        lookup(user_defs.get_variables(), &vmr).unwrap().1,
        Some(expected_type)
    );
}

#[test]
fn test_parse_type_array_variants() {
    let mut symbol_renaming = SymbolRenaming::new();
    let mut next_id = 0;
    let custom_id = CustomTypeId::fresh(&mut next_id);
    symbol_renaming.add_custom_type(custom_id, "MyCustom".to_string());
    let user_defs = &symbol_renaming.user_defs;

    // Test 1: Simple array
    let input1 = "Array<10; Int>";
    let result1 = parse_type(input1, user_defs);
    assert!(
        result1.is_ok(),
        "Failed to parse: '{}', error: {:?}",
        input1,
        result1.err()
    );
    if let Ok((remaining1, parsed_type1)) = result1 {
        assert_eq!(
            remaining1, "",
            "Input not fully consumed for: '{}', remaining: '{}'",
            input1, remaining1
        );
        assert_eq!(
            parsed_type1,
            Type::Array {
                len: 10,
                elem_type: Box::new(Type::Int)
            }
        );
    }

    // Test 2: Array of pointers
    let input2 = "Array<5; Pointer<Bool>>";
    let result2 = parse_type(input2, user_defs);
    assert!(
        result2.is_ok(),
        "Failed to parse: '{}', error: {:?}",
        input2,
        result2.err()
    );
    if let Ok((remaining2, parsed_type2)) = result2 {
        assert_eq!(
            remaining2, "",
            "Input not fully consumed for: '{}', remaining: '{}'",
            input2, remaining2
        );
        assert_eq!(
            parsed_type2,
            Type::Array {
                len: 5,
                elem_type: Box::new(Type::Pointer(Box::new(Type::Bool)))
            }
        );
    }

    // Test 3: Nested array
    let input3 = "Array<3; Array<2; Char>>";
    let result3 = parse_type(input3, user_defs);
    assert!(
        result3.is_ok(),
        "Failed to parse: '{}', error: {:?}",
        input3,
        result3.err()
    );
    if let Ok((remaining3, parsed_type3)) = result3 {
        assert_eq!(
            remaining3, "",
            "Input not fully consumed for: '{}', remaining: '{}'",
            input3, remaining3
        );
        assert_eq!(
            parsed_type3,
            Type::Array {
                len: 3,
                elem_type: Box::new(Type::Array {
                    len: 2,
                    elem_type: Box::new(Type::Char)
                })
            }
        );
    }

    // Test 4: Array of custom type
    let input4 = "Array<7; MyCustom>";
    let result4 = parse_type(input4, user_defs);
    assert!(
        result4.is_ok(),
        "Failed to parse: '{}', error: {:?}",
        input4,
        result4.err()
    );
    if let Ok((remaining4, parsed_type4)) = result4 {
        assert_eq!(
            remaining4, "",
            "Input not fully consumed for: '{}', remaining: '{}'",
            input4, remaining4
        );
        assert_eq!(
            parsed_type4,
            Type::Array {
                len: 7,
                elem_type: Box::new(Type::CustomType(custom_id))
            }
        );
    }

    // Test 5: Array with spaces around components
    let input5 = "Array< 12 ; Pointer<Int> >";
    let result5 = parse_type(input5, user_defs);
    assert!(
        result5.is_ok(),
        "Failed to parse: '{}', error: {:?}",
        input5,
        result5.err()
    );
    if let Ok((remaining5, parsed_type5)) = result5 {
        assert_eq!(
            remaining5.trim(),
            "",
            "Input not fully consumed (or only whitespace left) for: '{}', remaining: '{}'",
            input5,
            remaining5
        );
        assert_eq!(
            parsed_type5,
            Type::Array {
                len: 12,
                elem_type: Box::new(Type::Pointer(Box::new(Type::Int)))
            }
        );
    }

    // Test 6: Invalid syntax - missing length
    let input_err1 = "Array<; Int>";
    assert!(
        parse_type(input_err1, user_defs).is_err(),
        "Should fail on missing length: {}",
        input_err1
    );

    // Test 7: Invalid syntax - missing type
    let input_err2 = "Array<10; >";
    assert!(
        parse_type(input_err2, user_defs).is_err(),
        "Should fail on missing type: {}",
        input_err2
    );

    // Test 8: Invalid syntax - missing semicolon
    let input_err3 = "Array<10 Int>";
    assert!(
        parse_type(input_err3, user_defs).is_err(),
        "Should fail on missing semicolon: {}",
        input_err3
    );
}

#[test]
fn readme_symbol_file_with_phi_suppression() {
    let input = "# Globals\nG 34  SEPARATOR_START\nG 166 COMMAND_PROMPT\n\n# Custom types\nT EncodedString\nS GameThing { a, msg: Pointer<EncodedString>, c, d }\n\n# Function signatures\nF 1234 print_encoded_string(encoded_string: Pointer<EncodedString>)\nF 1353 process_game_thing(thing: Pointer<GameThing>)\n\n# Local variable names and types\nV 1234 [R-1]_0 str   Pointer<EncodedString>\nV 1130 [R-2]_2 index Int\n\n# Suppress noisy phi nodes\nXPHI 2329 [R-1]_3\n";
    let defs = UserDefs::from_lines(input).unwrap();
    assert_eq!(defs.get_global(34), Some(&"SEPARATOR_START".to_string()));
    assert_eq!(defs.get_global(166), Some(&"COMMAND_PROMPT".to_string()));
    assert_eq!(defs.get_function_name(FunctionId::new(1234)), Some(&"print_encoded_string".to_string()));
    assert_eq!(defs.get_function_name(FunctionId::new(1353)), Some(&"process_game_thing".to_string()));
    assert_eq!(defs.get_structs().len(), 1);
    assert_eq!(defs.get_structs()[0].1.fields.len(), 4);
    assert_eq!(defs.get_variables().len(), 2);
    let suppressed = VersionedMemoryReference {
        kind: VersionableMemoryKind::RelativeMemory(-1),
        function_id: FunctionId::new(2329),
        version: 3,
    };
    assert!(defs.is_phi_suppressed(&suppressed));
    let other = VersionedMemoryReference { version: 2, ..suppressed };
    assert!(!defs.is_phi_suppressed(&other));
}

#[test]
fn phi_suppression_line_parses() {
    let (rest, line) = SymbolRenamingLine::parse("XPHI 2329 [R-1]_3").unwrap();
    assert_eq!(rest, "");
    let vmr = VersionedMemoryReference {
        kind: VersionableMemoryKind::RelativeMemory(-1),
        function_id: FunctionId::new(2329),
        version: 3,
    };
    assert_eq!(line, SymbolRenamingLine::SuppressPhi(vmr));
    assert!(SymbolRenamingLine::parse("XPHI [R-1]_3").is_err());
}
