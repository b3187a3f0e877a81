# standard_query

A lookup tool for Chinese standard codes (such as `GB/T 28435-2012`): for a
code it reports whether the national standards platform lists it as in force
or withdrawn (and what replaces it), whether the CMA capability library holds
it, and whether it appears in the CNAS and CMA appendix files the user has
loaded (PDF, Excel or Word).

The library in `src/` is written in Verus and verified. Where a result comes
from an outside crate and takes more than a few lines to state (the sheets
`calamine` reads from a workbook, the entries `zip` reads from an archive, the
XML events `quick_xml` reads, the captures of a regular expression, Unicode
lowercasing), the contracts name that result and state what the library does
with it. Percent-encoding is stated in full. The trusted declarations that make
these calls say in their doc comments what they claim.

- `text`, `grammar`, `naming`: scanners over characters, the grammar of a
  standard code, and the rules that find the name written beside a code.
- `services::standard_parser`: normal forms of codes and extraction of a code
  from free text.
- `services::samr_status`, `services::cma_api`: the search page of the
  national standards platform and the list replies of the CMA library, read
  and turned into the answers shown to the user.
- `services::local_matcher`: the loaded appendix files and lookups in them.
- `parsers`: entries read from workbook files, Word document files and PDF text.
- `batch`: the lines of a batch file and the rows of its result sheet.
- `lookup`, `updater`, `versions`: routing a query, choosing a file reader,
  addresses of PDF pages, and comparing release versions.

Public proof functions named `law_*` state properties that hold across calls
(for instance that extracting a code twice gives what extracting it once
gave, or that a loaded code is always found exactly).

`app/` is the desktop program around the library: the Tauri commands, the
HTTP requests, opening files, laying out PDF pages, and writing result sheets.
