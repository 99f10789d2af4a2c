# marlowe_sexpr

A reader for the textual form of Marlowe contracts, in three verified stages:

* `lexer` splits source text into tokens whose byte spans tile the input;
* `main_parser` reads the tokens as one s-expression, recovering from stray tokens and
  reporting each problem it meets;
* `ast` reads a `Close` or `When` contract out of the s-expression.

Each stage has an executable function whose contract equals a spec function of the same
stage, and the laws of the library (the spans tile the input, every unexpected token is
reported, no failure goes unreported, the text of a contract reads back as that contract)
are proof functions beside them, together with laws on single stages: each token reads
back from the text under its span, a token's first character decides its kind, the
number, string and identifier recognizers take exactly the texts of their forms, and the
identifier reader makes one report per problem, all on the token's span.

Keywords are identifiers in the Unicode sense: they start with an XID_Start character
and go on with XID_Continue characters. The lexer takes these two classes from the
`unicode-ident` crate, the same tables that parser libraries use for Unicode identifiers.

`app/` holds the program: it reads `example.marlowe`, prints what each stage makes of
it with `ariadne` reports, and hands the contract to `marlowe_lang`.
