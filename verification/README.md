# rustfx

An OpenFX image-effect host. The library (`src/`) holds what the host
decides and stores, each function with a contract proved by Verus:

- `rfx::propertyset`, `rfx::paramset`, `rfx::imageclip`, `rfx::effectnode`:
  property sets, parameters, clips and image effects, each with a
  mathematical view (maps of names to values);
- `rfx::project`: the graph of nodes, and the naming of nodes
  (`Gain`, `Gain.1`, `Gain.2`, ...);
- `rfx::rfxfileformat`: the lexer and parser of project files;
- `rfx::engine`, `rfx::bundle`: the host's capabilities, its answers to
  the plug-ins' statuses, the plug-ins it keeps, the naming of bundles;
- `suites`: status codes, and the logic of the property, parameter and
  image effect suites that plug-ins call;
- `sandbox`: a first lexer and a byte-string wrapper;
- `numbers`, `text`, `keyed`: decimal numbers, characters of strings, and
  maps held as parallel vectors.

`app/` is the program around it: the C structures handed to plug-ins,
loading plug-in binaries, reading files and the environment.

## Malformed project files

The lexer and parser of project files report a malformed file as an
error rather than stopping the program: an unknown character, an unknown
command word, an integer out of 32-bit range or a bad floating-point
number give a `LexError`, and a misplaced token gives a `ParseError`
(for example `ExpectedSemicolonAfterName` when `name "N"` is not followed
by `;`). The contracts state exactly which text gives which error. The
program stops, with the error, when it loads such a file.

A parameter type that the host does not know is refused with
`kOfxStatErrUnknown`, and leaves the parameter set unchanged.
