# rope_find

Finding strings and regular expressions in ropes, verified with Verus.

- `src/text.rs`: byte positions and characters in UTF-8 text
- `src/rope.rs`: ropes as lists of leaves, and cursors
- `src/lowercase.rs`: lowercase forms of characters and strings
- `src/scan.rs`: quick scans for places where a match may start
- `src/regex_search.rs`: searching a stretch of text for a regular expression
- `src/search.rs`: what a match is, and what the steps of a search do
- `src/find.rs`: the searches
- `src/laws.rs`: what holds of searches as a whole

Positions count bytes. A search starts on a character boundary and reports the first
match at or behind the cursor. The case insensitive searches compare lowercase forms.
