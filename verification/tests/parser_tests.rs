use json_table::lexer::Lexer;
use json_table::parser::{JSONParser, ParseOptions, ValueType};

    #[test]
    fn lexer() {
        let json = r#"
        {
              "id": 1,
              "maxLevel": 9,
              "name": "NV_BASIC",
              "aa": true
            }"#;

        let mut lexer = Lexer::new(json.as_bytes());
        let tokens = lexer.lex();
        println!("{:?}", tokens);
    }

    #[test]
    fn object() {
        let json = r#"
        {
              "id": 1,
              "maxLevel": 99,
              "name": "NV_BASIC",
              "aaa": true
            }"#;

        let mut parser = JSONParser::new(json);
        let vec = parser.parse(ParseOptions::default()).unwrap().json;
        println!("{:?}", vec);
        assert_eq!(vec[0].0.pointer, "/id");
        assert_eq!(vec[0].0.value_type, ValueType::Number);
        assert_eq!(vec[0].1, Some("1".to_string()));
        assert_eq!(vec[1].0.pointer, "/maxLevel");
        assert_eq!(vec[1].0.value_type, ValueType::Number);
        assert_eq!(vec[1].1, Some("99".to_string()));
        assert_eq!(vec[2].0.pointer, "/name");
        assert_eq!(vec[2].0.value_type, ValueType::String);
        assert_eq!(vec[2].1, Some("NV_BASIC".to_string()));
        assert_eq!(vec[3].0.pointer, "/aaa");
        assert_eq!(vec[3].0.value_type, ValueType::Bool);
        assert_eq!(vec[3].1, Some("true".to_string()));
    }

    #[test]
    fn max_depth_object2() {
        let json = r#"{"skills": [{"description": "Bash", "bonusToTarget": [{"level":1,"value":2}], "copyflags": {
        "plagiarism": true,"reproduce": true}, "bonusToSelf": [{"level":1,"value":2}]}, {"description": "Bash", "copyflags": {"plagiarism": true,"reproduce": true}}]"#;

        let mut parser = JSONParser::new(json);
        let result1 = parser.parse(ParseOptions::default().parse_array(false).start_parse_at("/skills".to_string()).max_depth(1)).unwrap();
        let vec = &result1.json;
        println!("{:?}", vec);
    }

    #[test]
    fn parser_nested_object() {
        let json = r#"
        {
              "id": 1,
              "maxLevel": 99,
              "name": "NV_BASIC",
              "aaa": true,
              "flags": {"a": true, "b": false, "c": {"nested": "Oui"}}
            }"#;

        let mut parser = JSONParser::new(json);
        let vec = parser.parse(ParseOptions::default()).unwrap().json;
        println!("{:?}", vec);
        assert_eq!(vec[0].0.pointer, "/id");
        assert_eq!(vec[0].0.value_type, ValueType::Number);
        assert_eq!(vec[0].1, Some("1".to_string()));
        assert_eq!(vec[1].0.pointer, "/maxLevel");
        assert_eq!(vec[1].0.value_type, ValueType::Number);
        assert_eq!(vec[1].1, Some("99".to_string()));
        assert_eq!(vec[2].0.pointer, "/name");
        assert_eq!(vec[2].0.value_type, ValueType::String);
        assert_eq!(vec[2].1, Some("NV_BASIC".to_string()));
        assert_eq!(vec[3].0.pointer, "/aaa");
        assert_eq!(vec[3].0.value_type, ValueType::Bool);
        assert_eq!(vec[3].1, Some("true".to_string()));
        assert_eq!(vec[4].0.pointer, "/flags");
        assert_eq!(vec[4].0.value_type, ValueType::Object);
        assert_eq!(vec[5].0.pointer, "/flags/a");
        assert_eq!(vec[5].0.value_type, ValueType::Bool);
        assert_eq!(vec[5].1, Some("true".to_string()));
        assert_eq!(vec[6].0.pointer, "/flags/b");
        assert_eq!(vec[6].0.value_type, ValueType::Bool);
        assert_eq!(vec[6].1, Some("false".to_string()));
        assert_eq!(vec[7].0.pointer, "/flags/c");
        assert_eq!(vec[7].0.value_type, ValueType::Object);
        assert_eq!(vec[8].0.pointer, "/flags/c/nested");
        assert_eq!(vec[8].0.value_type, ValueType::String);
        assert_eq!(vec[8].1, Some("Oui".to_string()));
    }

    #[test]
    fn parser_simple_array() {
        let json = r#"
            [1,2,3]
        "#;

        let mut parser = JSONParser::new(json);
        let res = parser.parse(ParseOptions::default()).unwrap();
        let vec = res.json;
        println!("{:?}", vec);
        assert_eq!(res.root_array_len, 3);
        assert_eq!(vec[0].0.pointer, "/0");
        assert_eq!(vec[0].0.value_type, ValueType::Number);
        assert_eq!(vec[0].1, Some("1".to_string()));
        assert_eq!(vec[1].0.pointer, "/1");
        assert_eq!(vec[1].0.value_type, ValueType::Number);
        assert_eq!(vec[1].1, Some("2".to_string()));
        assert_eq!(vec[2].0.pointer, "/2");
        assert_eq!(vec[2].0.value_type, ValueType::Number);
        assert_eq!(vec[2].1, Some("3".to_string()));
    }

    #[test]
    fn simple_array_nested() {
        let json = r#"
            [[1],[2],[3]]
        "#;

        let mut parser = JSONParser::new(json);
        let vec = parser.parse(ParseOptions::default()).unwrap().json;
        println!("{:?}", vec);
        assert_eq!(vec[0].0.pointer, "/0/0");
        assert_eq!(vec[0].0.value_type, ValueType::Number);
        assert_eq!(vec[0].1, Some("1".to_string()));
        assert_eq!(vec[1].0.pointer, "/1/0");
        assert_eq!(vec[1].0.value_type, ValueType::Number);
        assert_eq!(vec[1].1, Some("2".to_string()));
        assert_eq!(vec[2].0.pointer, "/2/0");
        assert_eq!(vec[2].0.value_type, ValueType::Number);
        assert_eq!(vec[2].1, Some("3".to_string()));
    }

    #[test]
    fn array() {
        let json = r#"
            {
                "skills": [
                    {"description": "Basic Skill"},
                    {"description": "Heal"},
                    {"description": "Bash"},
                ]
            }
        "#;

        let mut parser = JSONParser::new(json);
        let vec = parser.parse(ParseOptions::default()).unwrap().json;
        println!("{:?}", vec);
        assert_eq!(vec[1].0.pointer, "/skills/0/description");
        assert_eq!(vec[1].0.parent(), "/skills/0");
        assert_eq!(vec[1].0.value_type, ValueType::String);
        assert_eq!(vec[1].1, Some("Basic Skill".to_string()));
        assert_eq!(vec[3].0.pointer, "/skills/1/description");
        assert_eq!(vec[3].0.value_type, ValueType::String);
        assert_eq!(vec[3].1, Some("Heal".to_string()));
        assert_eq!(vec[5].0.pointer, "/skills/2/description");
        assert_eq!(vec[5].0.value_type, ValueType::String);
        assert_eq!(vec[5].1, Some("Bash".to_string()));
    }

    #[test]
    fn array_with_start_parse_at() {
        let json = r#"
            {
                "skills": [
                    {"description": "Basic Skill", "inner": [2]},
                    {"description": "Heal", "inner": [3]},
                    {"description": "Bash", "inner": [1]}
                ]
            }
        "#;

        let mut parser = JSONParser::new(json);
        let vec = parser.parse(ParseOptions::default().start_parse_at("/skills".to_string()).parse_array(false)).unwrap().json;
        println!("{:?}", vec);
        assert_eq!(vec.len(), 9);
        assert_eq!(vec[1].0.pointer, "/skills/0/description");
        assert_eq!(vec[1].0.value_type, ValueType::String);
        assert_eq!(vec[2].0.pointer, "/skills/0/inner");
        assert_eq!(vec[2].0.value_type, ValueType::Array);
        assert_eq!(vec[4].0.pointer, "/skills/1/description");
        assert_eq!(vec[4].0.value_type, ValueType::String);
        assert_eq!(vec[5].0.pointer, "/skills/1/inner");
        assert_eq!(vec[5].0.value_type, ValueType::Array);
        assert_eq!(vec[7].0.pointer, "/skills/2/description");
        assert_eq!(vec[7].0.value_type, ValueType::String);
        assert_eq!(vec[8].0.pointer, "/skills/2/inner");
        assert_eq!(vec[8].0.value_type, ValueType::Array);
    }

    #[test]
    fn array_with_parse_option_false() {
        let json = r#"
            {
                "skills": [
                    {"description": "Basic Skill"},
                    {"description": "Heal"},
                    {"description": "Bash"}
                ]
            }
        "#;

        let mut parser = JSONParser::new(json);
        let vec = parser.parse(ParseOptions::default().parse_array(false)).unwrap().json;
        println!("{:?}", vec);
        assert_eq!(vec[0].0.pointer, "/skills");
        assert_eq!(vec[0].0.value_type, ValueType::Array);
        assert_eq!(vec[0].1.as_ref().unwrap(), "[{\"description\": \"Basic Skill\"},\n                    {\"description\": \"Heal\"},\n                    {\"description\": \"Bash\"}\n                ]");
    }


    #[test]
    fn complex_array() {
        let json = r#"
        {
          "skills": [
            {
      "description": "Basic Skill",
      "id": 1,
      "maxLevel": 9,
      "name": "NV_BASIC",
      "basicSkillPerLevel": [
        {
          "level": 1,
          "value": "Trade"
        },
        {
          "level": 2,
          "value": "Emoticon"
        },
        {
          "level": 3,
          "value": "Sit"
        },
        {
          "level": 4,
          "value": "Chat Room (create)"
        },
        {
          "level": 5,
          "value": "Party (join)"
        },
        {
          "level": 6,
          "value": "Kafra Storage"
        },
        {
          "level": 7,
          "value": "Party (create)"
        },
        {
          "level": 8,
          "value": "-"
        },
        {
          "level": 9,
          "value": "Job Change"
        }
      ],
      "targetType": "Passive"
    },
    {
      "description": "Sword Mastery",
      "id": 2,
      "maxLevel": 10,
      "name": "SM_SWORD",
      "type": "Weapon",
      "copyflags": {
        "plagiarism": true,
        "reproduce": true
      },
      "bonusToSelf": [
        {
          "level": 1,
          "value": {
            "bonus": "MasteryDamageUsingWeaponType",
            "value": "1hSword",
            "value2": 4
          }
        },
        {
          "level": 2,
          "value": {
            "bonus": "MasteryDamageUsingWeaponType",
            "value": "1hSword",
            "value2": 8
          }
        },
        {
          "level": 3,
          "value": {
            "bonus": "MasteryDamageUsingWeaponType",
            "value": "1hSword",
            "value2": 12
          }
        },
        {
          "level": 4,
          "value": {
            "bonus": "MasteryDamageUsingWeaponType",
            "value": "1hSword",
            "value2": 16
          }
        },
        {
          "level": 5,
          "value": {
            "bonus": "MasteryDamageUsingWeaponType",
            "value": "1hSword",
            "value2": 20
          }
        },
        {
          "level": 6,
          "value": {
            "bonus": "MasteryDamageUsingWeaponType",
            "value": "1hSword",
            "value2": 24
          }
        },
        {
          "level": 7,
          "value": {
            "bonus": "MasteryDamageUsingWeaponType",
            "value": "1hSword",
            "value2": 28
          }
        },
        {
          "level": 8,
          "value": {
            "bonus": "MasteryDamageUsingWeaponType",
            "value": "1hSword",
            "value2": 32
          }
        },
        {
          "level": 9,
          "value": {
            "bonus": "MasteryDamageUsingWeaponType",
            "value": "1hSword",
            "value2": 36
          }
        },
        {
          "level": 10,
          "value": {
            "bonus": "MasteryDamageUsingWeaponType",
            "value": "1hSword",
            "value2": 40
          }
        }
      ],
      "targetType": "Passive"
    }
          ]
        }"#;

        let mut parser = JSONParser::new(json);
        let res = parser.parse(ParseOptions::default().parse_array(false).start_parse_at("/skills".to_string()).max_depth(1)).unwrap();
        let vec = res.json;
        println!("{:?}", res.root_array_len);
        println!("{:?}", vec);
    }

    #[test]
    fn max_depth_object() {
        let json = r#"{"nested": {"a1": "a","b": {"a2": "a","c": {"a3": "a"}}}"#;

        let mut parser = JSONParser::new(json);
        let result1 = parser.parse(ParseOptions::default().max_depth(1)).unwrap();
        let vec = &result1.json;
        println!("{:?}", vec);
        assert_eq!(vec.len(), 1);
        assert_eq!(vec[0].0.pointer, "/nested");
        assert_eq!(vec[0].0.value_type, ValueType::Object);
        assert_eq!(vec[0].1, Some("{\"a1\": \"a\",\"b\": {\"a2\": \"a\",\"c\": {\"a3\": \"a\"}}}".to_string()));
        let mut parser = JSONParser::new(json);
        let result2 = parser.parse(ParseOptions::default().max_depth(2)).unwrap();
        let vec = &result2.json;
        println!("{:?}", vec);
        assert_eq!(vec.len(), 3);
        assert_eq!(vec[0].0.pointer, "/nested");
        assert_eq!(vec[0].0.value_type, ValueType::Object);
        assert_eq!(vec[0].1, Some("{\"a1\": \"a\",\"b\": {\"a2\": \"a\",\"c\": {\"a3\": \"a\"}}}".to_string()));
        assert_eq!(vec[1].0.pointer, "/nested/a1");
        assert_eq!(vec[1].0.value_type, ValueType::String);
        assert_eq!(vec[1].1, Some("a".to_string()));
        assert_eq!(vec[2].0.pointer, "/nested/b");
        assert_eq!(vec[2].0.value_type, ValueType::Object);
        assert_eq!(vec[2].1, Some("{\"a2\": \"a\",\"c\": {\"a3\": \"a\"}}".to_string()));
    }

#[test]
fn unparsed_array_keeps_its_whole_text() {
    let json = r#"{"a": [12, 3], "b": [[1, 2], [3]], "c": ["]", 4]}"#;
    let parser = JSONParser::new(json);
    let vec = parser.parse(ParseOptions::default().parse_array(false)).unwrap().json;
    assert_eq!(vec[0].0.pointer, "/a");
    assert_eq!(vec[0].0.value_type, ValueType::Array);
    assert_eq!(vec[0].1, Some("[12, 3]".to_string()));
    assert_eq!(vec[1].0.pointer, "/b");
    assert_eq!(vec[1].1, Some("[[1, 2], [3]]".to_string()));
    assert_eq!(vec[2].0.pointer, "/c");
    assert_eq!(vec[2].1, Some("[\"]\", 4]".to_string()));
}

#[test]
fn brace_inside_a_string_does_not_close_the_object() {
    let json = r#"{"a": "}"}"#;
    let mut lexer = Lexer::new(json.as_bytes());
    assert!(matches!(lexer.next_token(), Some(json_table::lexer::Token::CurlyOpen)));
    assert_eq!(lexer.consume_string_until_end_of_object(), Some(r#"{"a": "}"}"#));
    assert_eq!(lexer.reader_index(), 10);
}

#[test]
fn error_messages_show_the_token() {
    let parser = JSONParser::new("\"text\"");
    let err = match parser.parse(ParseOptions::default()) {
        Err(e) => e,
        Ok(_) => panic!("expected an error"),
    };
    assert_eq!(err, "Expected json to start with { or [ but started with String(\"text\")");
    let parser = JSONParser::new("true");
    let err = match parser.parse(ParseOptions::default()) {
        Err(e) => e,
        Ok(_) => panic!("expected an error"),
    };
    assert_eq!(err, "Expected json to start with { or [ but started with Boolean(true)");
}

#[test]
fn lexing_again_from_a_saved_index_reads_the_same_token() {
    let json = br#"{"key": 12}"#;
    let mut lexer = Lexer::new(json);
    lexer.next_token();
    let saved = lexer.reader_index();
    let first = format!("{:?}", lexer.next_token());
    let after = lexer.reader_index();
    lexer.set_reader_index(saved);
    assert_eq!(format!("{:?}", lexer.next_token()), first);
    assert_eq!(lexer.reader_index(), after);
}

#[test]
fn a_value_after_an_array_loses_the_object_key() {
    let parser = JSONParser::new(r#"{"x": {"a": [1], "b": 2}}"#);
    let result = match parser.parse(ParseOptions::default()) {
        Ok(r) => r,
        Err(e) => panic!("{}", e),
    };
    let two = result.json.iter().find(|(_, v)| v.as_deref() == Some("2")).unwrap();
    assert_eq!(two.0.pointer, "/b");
}
