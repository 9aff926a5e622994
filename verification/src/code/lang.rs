//! Which grammar handles which file, and what counts as an entity in each.
//!
//! One table per language rather than one parser per language. The entity extractor walks any
//! syntax tree and consults the table, so adding a language is a table entry plus a grammar, not
//! another pass of bespoke traversal code.

use crate::text::same;
use crate::wording::after_last;
use crate::wording::lower_of;
use crate::wording::tail_after_last;
use crate::wording::to_lower;
use vstd::prelude::*;

verus! {

#[derive(Clone, Copy, PartialEq, Eq, Structural, Debug)]
pub enum Lang {
    Rust,
    Python,
    TypeScript,
}

/// How to read one language's tree.
#[derive(Clone, Copy, Debug)]
pub struct LangSpec {
    pub lang: Lang,
    pub name: &'static str,
    /// Separator used when qualifying names.
    pub sep: &'static str,
    /// Braces or indentation: decides how a replaced body is re-wrapped.
    pub braced: bool,
}

/// The language that a file extension belongs to.
pub open spec fn lang_of_extension(ext: Seq<char>) -> Option<Lang> {
    if ext == "rs"@ {
        Some(Lang::Rust)
    } else if ext == "py"@ {
        Some(Lang::Python)
    } else if ext == "ts"@ || ext == "tsx"@ || ext == "mts"@ || ext == "cts"@ {
        Some(Lang::TypeScript)
    } else {
        None
    }
}

/// The language that a path belongs to.
pub open spec fn lang_of(path: Seq<char>) -> Option<Lang> {
    lang_of_extension(lower_of(after_last(path, '.')))
}

pub open spec fn lang_name(lang: Lang) -> Seq<char> {
    match lang {
        Lang::Rust => "rust"@,
        Lang::Python => "python"@,
        Lang::TypeScript => "typescript"@,
    }
}

pub open spec fn lang_sep(lang: Lang) -> Seq<char> {
    match lang {
        Lang::Rust => "::"@,
        Lang::Python => "."@,
        Lang::TypeScript => "."@,
    }
}

/// The entity kind of a syntax node kind.
pub open spec fn kind_for(lang: Lang, k: Seq<char>) -> Option<Seq<char>> {
    match lang {
        Lang::Rust => if k == "function_item"@ {
            Some("fn"@)
        } else if k == "struct_item"@ {
            Some("struct"@)
        } else if k == "enum_item"@ {
            Some("enum"@)
        } else if k == "trait_item"@ {
            Some("trait"@)
        } else if k == "type_item"@ {
            Some("type"@)
        } else if k == "const_item"@ {
            Some("const"@)
        } else if k == "static_item"@ {
            Some("static"@)
        } else if k == "mod_item"@ {
            Some("mod"@)
        } else if k == "macro_definition"@ {
            Some("macro"@)
        } else {
            None
        },
        Lang::Python => if k == "function_definition"@ {
            Some("fn"@)
        } else if k == "class_definition"@ {
            Some("class"@)
        } else {
            None
        },
        Lang::TypeScript => if k == "function_declaration"@ || k == "method_definition"@ {
            Some("fn"@)
        } else if k == "class_declaration"@ {
            Some("class"@)
        } else if k == "interface_declaration"@ {
            Some("interface"@)
        } else if k == "type_alias_declaration"@ {
            Some("type"@)
        } else if k == "enum_declaration"@ {
            Some("enum"@)
        } else {
            None
        },
    }
}

/// The field that holds the name of a node that qualifies the entities inside it:
/// `impl Foo { fn bar }` is `Foo::bar`, not `bar`.
pub open spec fn scope_field(lang: Lang, k: Seq<char>) -> Option<Seq<char>> {
    match lang {
        Lang::Rust => if k == "impl_item"@ {
            Some("type"@)
        } else if k == "mod_item"@ || k == "trait_item"@ {
            Some("name"@)
        } else {
            None
        },
        Lang::Python => if k == "class_definition"@ {
            Some("name"@)
        } else {
            None
        },
        Lang::TypeScript => if k == "class_declaration"@ {
            Some("name"@)
        } else {
            None
        },
    }
}

/// Is a node of this kind an import?
pub open spec fn imports(lang: Lang, k: Seq<char>) -> bool {
    match lang {
        Lang::Rust => k == "use_declaration"@,
        Lang::Python => k == "import_statement"@ || k == "import_from_statement"@,
        Lang::TypeScript => k == "import_statement"@,
    }
}

impl LangSpec {
    /// The table of one language.
    pub fn of(lang: Lang) -> (r: LangSpec)
        ensures
            r.lang == lang,
            r.name@ == lang_name(lang),
            r.sep@ == lang_sep(lang),
            r.braced == (lang != Lang::Python),
    {
        match lang {
            Lang::Rust => LangSpec { lang, name: "rust", sep: "::", braced: true },
            Lang::Python => LangSpec { lang, name: "python", sep: ".", braced: false },
            Lang::TypeScript => LangSpec { lang, name: "typescript", sep: ".", braced: true },
        }
    }

    pub fn for_path(path: &str) -> (r: Option<LangSpec>)
        ensures
            r is Some <==> lang_of(path@) is Some,
            r matches Some(s) ==> {
                &&& lang_of(path@) == Some(s.lang)
                &&& s.name@ == lang_name(s.lang)
                &&& s.sep@ == lang_sep(s.lang)
                &&& s.braced == (s.lang != Lang::Python)
            },
    {
        let tail = tail_after_last(path, '.');
        let ext = to_lower(tail.as_str());
        let e = ext.as_str();
        if same(e, "rs") {
            Some(LangSpec::of(Lang::Rust))
        } else if same(e, "py") {
            Some(LangSpec::of(Lang::Python))
        } else if same(e, "ts") || same(e, "tsx") || same(e, "mts") || same(e, "cts") {
            Some(LangSpec::of(Lang::TypeScript))
        } else {
            None
        }
    }

    pub fn entity_kind(&self, ts_kind: &str) -> (r: Option<&'static str>)
        ensures
            r is Some <==> kind_for(self.lang, ts_kind@) is Some,
            r matches Some(k) ==> kind_for(self.lang, ts_kind@) == Some(k@),
    {
        let k = ts_kind;
        match self.lang {
            Lang::Rust => if same(k, "function_item") {
                Some("fn")
            } else if same(k, "struct_item") {
                Some("struct")
            } else if same(k, "enum_item") {
                Some("enum")
            } else if same(k, "trait_item") {
                Some("trait")
            } else if same(k, "type_item") {
                Some("type")
            } else if same(k, "const_item") {
                Some("const")
            } else if same(k, "static_item") {
                Some("static")
            } else if same(k, "mod_item") {
                Some("mod")
            } else if same(k, "macro_definition") {
                Some("macro")
            } else {
                None
            },
            Lang::Python => if same(k, "function_definition") {
                Some("fn")
            } else if same(k, "class_definition") {
                Some("class")
            } else {
                None
            },
            Lang::TypeScript => if same(k, "function_declaration") || same(k, "method_definition") {
                Some("fn")
            } else if same(k, "class_declaration") {
                Some("class")
            } else if same(k, "interface_declaration") {
                Some("interface")
            } else if same(k, "type_alias_declaration") {
                Some("type")
            } else if same(k, "enum_declaration") {
                Some("enum")
            } else {
                None
            },
        }
    }

    pub fn container_name_field(&self, ts_kind: &str) -> (r: Option<&'static str>)
        ensures
            r is Some <==> scope_field(self.lang, ts_kind@) is Some,
            r matches Some(f) ==> scope_field(self.lang, ts_kind@) == Some(f@),
    {
        let k = ts_kind;
        match self.lang {
            Lang::Rust => if same(k, "impl_item") {
                Some("type")
            } else if same(k, "mod_item") || same(k, "trait_item") {
                Some("name")
            } else {
                None
            },
            Lang::Python => if same(k, "class_definition") {
                Some("name")
            } else {
                None
            },
            Lang::TypeScript => if same(k, "class_declaration") {
                Some("name")
            } else {
                None
            },
        }
    }

    pub fn is_import(&self, ts_kind: &str) -> (r: bool)
        ensures
            r == imports(self.lang, ts_kind@),
    {
        match self.lang {
            Lang::Rust => same(ts_kind, "use_declaration"),
            Lang::Python => same(ts_kind, "import_statement") || same(
                ts_kind,
                "import_from_statement",
            ),
            Lang::TypeScript => same(ts_kind, "import_statement"),
        }
    }
}

} // verus!
