use crate::scalar::Scalar;
use crate::text::str_eq;
use vstd::prelude::*;

verus! {

/// The lexical category of a [`Token`].
#[derive(Clone, Copy, PartialEq, Eq, Structural, Debug)]
pub enum TokenType {
    /// A constant numeric value.
    Number,
    /// A call of a named function of the symbol configuration.
    Function,
    /// A reference to a variable of the program state.
    Variable,
    /// An arithmetic or assignment operation.
    Operation,
}

/// The operation a `TokenType::Operation` token performs.
#[derive(Clone, Copy, PartialEq, Eq, Structural, Debug)]
pub enum OperationType {
    Add,
    Sub,
    Mul,
    Div,
    /// Assignment to a variable.
    Assign,
    /// Declaration of a new variable.
    Create,
}

/// The operation that a symbol or a spelled-out name denotes, if any.
pub open spec fn op_of(s: Seq<char>) -> Option<OperationType> {
    if s == "Add"@ || s == "+"@ || s == "add"@ {
        Some(OperationType::Add)
    } else if s == "Sub"@ || s == "-"@ || s == "sub"@ {
        Some(OperationType::Sub)
    } else if s == "Mul"@ || s == "*"@ || s == "mul"@ {
        Some(OperationType::Mul)
    } else if s == "Div"@ || s == "/"@ || s == "div"@ {
        Some(OperationType::Div)
    } else if s == "Assign"@ || s == "="@ || s == "assign"@ {
        Some(OperationType::Assign)
    } else if s == "Create"@ || s == "let"@ || s == "create"@ {
        Some(OperationType::Create)
    } else {
        None
    }
}

impl OperationType {
    /// Reads an operation from its symbol or its spelled-out name.
    pub fn from_str(s: &str) -> (r: Option<OperationType>)
        ensures
            r == op_of(s@),
    {
        if str_eq(s, "Add") || str_eq(s, "+") || str_eq(s, "add") {
            Some(OperationType::Add)
        } else if str_eq(s, "Sub") || str_eq(s, "-") || str_eq(s, "sub") {
            Some(OperationType::Sub)
        } else if str_eq(s, "Mul") || str_eq(s, "*") || str_eq(s, "mul") {
            Some(OperationType::Mul)
        } else if str_eq(s, "Div") || str_eq(s, "/") || str_eq(s, "div") {
            Some(OperationType::Div)
        } else if str_eq(s, "Assign") || str_eq(s, "=") || str_eq(s, "assign") {
            Some(OperationType::Assign)
        } else if str_eq(s, "Create") || str_eq(s, "let") || str_eq(s, "create") {
            Some(OperationType::Create)
        } else {
            None
        }
    }
}

/// The numeric payload of a number token: either a literal still to be read
/// by the host, or a scalar fixed at tokenize time (a resolved constant).
#[derive(Debug)]
pub enum Numeric {
    Literal(String),
    Value(Scalar),
}

/// The mathematical value of a [`Numeric`].
pub ghost enum NumericV {
    Literal(Seq<char>),
    Value(Scalar),
}

impl View for Numeric {
    type V = NumericV;

    open spec fn view(&self) -> NumericV {
        match self {
            Numeric::Literal(s) => NumericV::Literal(s@),
            Numeric::Value(v) => NumericV::Value(*v),
        }
    }
}

impl Clone for Numeric {
    fn clone(&self) -> (r: Numeric)
        ensures
            r@ == self@,
    {
        match self {
            Numeric::Literal(s) => Numeric::Literal(s.clone()),
            Numeric::Value(v) => Numeric::Value(*v),
        }
    }
}

/// One classified unit of a statement: a number, a variable reference,
/// a function name or an operation.
#[derive(Debug)]
pub enum Token {
    Number(Numeric),
    Operation(OperationType),
    Variable(String),
    Function(String),
}

/// The mathematical value of a [`Token`].
pub ghost enum TokV {
    Number(NumericV),
    Operation(OperationType),
    Variable(Seq<char>),
    Function(Seq<char>),
}

impl View for Token {
    type V = TokV;

    open spec fn view(&self) -> TokV {
        match self {
            Token::Number(n) => TokV::Number(n@),
            Token::Operation(op) => TokV::Operation(*op),
            Token::Variable(s) => TokV::Variable(s@),
            Token::Function(s) => TokV::Function(s@),
        }
    }
}

impl DeepView for Token {
    type V = TokV;

    open spec fn deep_view(&self) -> TokV {
        self@
    }
}

impl Clone for Token {
    fn clone(&self) -> (r: Token)
        ensures
            r@ == self@,
    {
        match self {
            Token::Number(n) => Token::Number(n.clone()),
            Token::Operation(op) => Token::Operation(*op),
            Token::Variable(s) => Token::Variable(s.clone()),
            Token::Function(s) => Token::Function(s.clone()),
        }
    }
}

impl Token {
    /// A number token holding an already-resolved scalar.
    pub fn new_number(number: Scalar) -> (r: Token)
        ensures
            r@ == TokV::Number(NumericV::Value(number)),
    {
        Token::Number(Numeric::Value(number))
    }

    /// A number token holding the text of a numeric literal.
    pub fn new_literal(text: String) -> (r: Token)
        ensures
            r@ == TokV::Number(NumericV::Literal(text@)),
    {
        Token::Number(Numeric::Literal(text))
    }

    /// An operation token.
    pub fn new_operation(op: OperationType) -> (r: Token)
        ensures
            r@ == TokV::Operation(op),
    {
        Token::Operation(op)
    }

    /// A variable-reference token.
    pub fn new_variable(name: String) -> (r: Token)
        ensures
            r@ == TokV::Variable(name@),
    {
        Token::Variable(name)
    }

    /// A function-call token.
    pub fn new_function(name: String) -> (r: Token)
        ensures
            r@ == TokV::Function(name@),
    {
        Token::Function(name)
    }

    /// The token's lexical category.
    pub fn token_type(&self) -> (t: TokenType)
        ensures
            t == self@.token_type(),
    {
        match self {
            Token::Number(_) => TokenType::Number,
            Token::Operation(_) => TokenType::Operation,
            Token::Variable(_) => TokenType::Variable,
            Token::Function(_) => TokenType::Function,
        }
    }
}

impl TokV {
    /// The lexical category of a token value.
    pub open spec fn token_type(self) -> TokenType {
        match self {
            TokV::Number(_) => TokenType::Number,
            TokV::Operation(_) => TokenType::Operation,
            TokV::Variable(_) => TokenType::Variable,
            TokV::Function(_) => TokenType::Function,
        }
    }
}

} // verus!
