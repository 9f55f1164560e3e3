# chewing

The text handling core of a Zhuyin input method, written in Verus: the
functions of the library carry contracts that Verus proves. Two small
functions that call the standard library (`str::from_utf8`, `String::push`)
are trusted to do what its documentation says, and the conversion relies on
each `Dictionary` to return what its `lookup_spec` names.

- `src/grapheme.rs`, `src/grapheme_order.rs`: splitting text into user
  perceived characters, and a fixed size character type with its order.
- `src/zhuyin.rs`: Zhuyin symbols and the syllables built from them.
- `src/conversion.rs`: the symbols of a composition, its gaps and
  selections, and the gluing of converted intervals.
- `src/engine.rs`: which dictionary phrases may cover which runs of a
  composition, the order they are offered in, the edge graph they make, and
  reading a path of that graph back.
- `src/readings.rs`: what each step of the search for readings with
  distinct text does; the order of the steps comes from the caller.
- `src/symbol.rs`: the symbol table menus.
- `src/tsi.rs`: the lines of a phrase source file and the counts the length
  prior is computed from.
- `src/text.rs`: lines and separators.

`app/` holds what stays outside the proofs: the search that ranks readings
by floating point log probabilities, reading files, and the tool that builds
a phrase database.
